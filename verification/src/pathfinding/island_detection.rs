//! Grouping the regions of a cluster into islands: regions touching the
//! cluster border are flood-filled into islands along well-connected pairs,
//! and every other region joins the island of the nearest border region.
use vstd::prelude::*;
use vstd::set_lib::{set_int_range, lemma_int_range, lemma_len_subset};
use crate::fixed::{FixedNum, FixedVec2, ONE_BITS, HALF_BITS, fixed_mul_spec, length_squared_spec, sqrt_bits};
use crate::pathfinding::types::{Region, Rect, Island, IslandId, RegionId, mid_bits, MAX_REGIONS, MAX_ISLANDS, NO_PATH, CLUSTER_SIZE, TORTUOSITY_THRESHOLD};
use crate::pathfinding::cluster::{Cluster, route_in};
use crate::pathfinding::region_list::{RegionList, region_list_items};
use crate::pathfinding::region_connectivity::EPSILON_BITS;

verus! {

/// Path length standing for "no usable route" (1000).
pub const DISCONNECTED_BITS: i64 = 65_536_000;

/// Squared distance above every real one (1 000 000).
pub const FAR_SQUARED_BITS: i64 = 65_536_000_000;

/// Regions of the first `count` slots are present, the rest absent; each
/// region is indexed by its id and its bounds lie in range.
pub open spec fn regions_dense(c: &Cluster) -> bool {
    &&& c.wf()
    &&& forall|i: int|
        0 <= i < MAX_REGIONS ==> ((#[trigger] c.regions@[i] is Some) <==> i < c.region_count)
    &&& forall|i: int|
        0 <= i < c.region_count ==> {
            let r = (#[trigger] c.regions@[i])->0;
            &&& r.id.0 == i
            &&& r.bounds.min.in_range()
            &&& r.bounds.max.in_range()
        }
    &&& forall|i: int, j: int|
        0 <= i < MAX_REGIONS && 0 <= j < MAX_REGIONS ==> (#[trigger] c.route_spec(i, j) == NO_PATH
            || c.route_spec(i, j) < c.region_count)
}

/// Centre of region `i`, or the origin where the slot is empty.
pub open spec fn center_of(c: &Cluster, i: int) -> FixedVec2 {
    match c.regions@[i] {
        Some(r) => FixedVec2 {
            x: FixedNum { bits: mid_bits(r.bounds.min.x.bits as int, r.bounds.max.x.bits as int) as i64 },
            y: FixedNum { bits: mid_bits(r.bounds.min.y.bits as int, r.bounds.max.y.bits as int) as i64 },
        },
        None => FixedVec2 { x: FixedNum { bits: 0 }, y: FixedNum { bits: 0 } },
    }
}

/// Straight-line distance between the centres of regions `i` and `j`.
pub open spec fn center_distance(c: &Cluster, i: int, j: int) -> int {
    sqrt_bits(
        length_squared_spec(
            center_of(c, j).x.bits - center_of(c, i).x.bits,
            center_of(c, j).y.bits - center_of(c, i).y.bits,
        ),
    )
}

/// Length of the route the local routing table gives from `cur` to `end`,
/// following at most `fuel` hops from `total`, or `DISCONNECTED_BITS` when the
/// table has no route, returns to a region already visited, or runs out.
pub open spec fn routed_distance(c: &Cluster, cur: int, end: int, visited: Set<int>, fuel: nat, total: int) -> int
    decreases fuel,
{
    if cur == end {
        total
    } else if fuel == 0 {
        DISCONNECTED_BITS as int
    } else {
        let next = c.route_spec(cur, end) as int;
        if next == NO_PATH || next == cur || visited.insert(cur).contains(next) {
            DISCONNECTED_BITS as int
        } else {
            routed_distance(c, next, end, visited.insert(cur), (fuel - 1) as nat, total + center_distance(c, cur, next))
        }
    }
}

/// Distance from region `start` to region `end` along the local routing table.
pub open spec fn path_distance(c: &Cluster, start: int, end: int) -> int {
    if start == end {
        0
    } else {
        routed_distance(c, start, end, Set::empty(), MAX_REGIONS as nat, 0)
    }
}

/// Whether two regions are joined by a route whose length is at most
/// `TORTUOSITY_THRESHOLD` times their straight-line distance (compared as a
/// fixed-point quotient rounded down); regions whose centres nearly coincide
/// always are.
pub open spec fn well_connected(c: &Cluster, a: int, b: int) -> bool {
    if c.route_spec(a, b) == NO_PATH {
        false
    } else {
        let eu = center_distance(c, a, b);
        if eu < EPSILON_BITS {
            true
        } else {
            (path_distance(c, a, b) * ONE_BITS) / eu <= TORTUOSITY_THRESHOLD * ONE_BITS
        }
    }
}

/// Whether a region touches one side of its cluster (within half a cell).
pub open spec fn touches_border(r: Rect) -> bool {
    let side = CLUSTER_SIZE * ONE_BITS;
    ||| -HALF_BITS < r.min.x.bits < HALF_BITS
    ||| -HALF_BITS < r.max.x.bits - side < HALF_BITS
    ||| -HALF_BITS < r.min.y.bits < HALF_BITS
    ||| -HALF_BITS < r.max.y.bits - side < HALF_BITS
}

/// Whether a region touches the border of its cluster (see `touches_border`).
pub fn is_boundary_region(region: &Region) -> (r: bool)
    requires
        region.bounds.min.in_range(),
        region.bounds.max.in_range(),
    ensures
        r == touches_border(region.bounds),
{
    let side: i64 = 25 * ONE_BITS;
    let b = region.bounds;
    let lx = b.min.x.bits;
    let rx = b.max.x.bits - side;
    let ly = b.min.y.bits;
    let ry = b.max.y.bits - side;
    (-HALF_BITS < lx && lx < HALF_BITS) || (-HALF_BITS < rx && rx < HALF_BITS) || (-HALF_BITS < ly && ly < HALF_BITS) || (-HALF_BITS < ry && ry < HALF_BITS)
}

/// Centre of region `i` (the origin for an empty slot).
fn region_center(cluster: &Cluster, i: usize) -> (r: FixedVec2)
    requires
        regions_dense(cluster),
        i < MAX_REGIONS,
    ensures
        r == center_of(cluster, i as int),
        r.in_range(),
{
    match &cluster.regions[i] {
        Some(reg) => reg.bounds.center(),
        None => FixedVec2 { x: FixedNum { bits: 0 }, y: FixedNum { bits: 0 } },
    }
}

/// Distance between the centres of regions `i` and `j`.
fn region_distance(cluster: &Cluster, i: usize, j: usize) -> (r: i64)
    requires
        regions_dense(cluster),
        i < MAX_REGIONS,
        j < MAX_REGIONS,
    ensures
        r == center_distance(cluster, i as int, j as int),
        0 <= r <= 0x80_0000_0000,
{
    let ci = region_center(cluster, i);
    let cj = region_center(cluster, j);
    let d = FixedVec2 { x: FixedNum { bits: cj.x.bits - ci.x.bits }, y: FixedNum { bits: cj.y.bits - ci.y.bits } };
    d.length().bits
}

/// Distance from `start` to `end` along the local routing table (see `path_distance`).
pub fn estimate_path_distance(cluster: &Cluster, start: usize, end: usize) -> (r: i64)
    requires
        regions_dense(cluster),
        start < MAX_REGIONS,
        end < MAX_REGIONS,
    ensures
        r == path_distance(cluster, start as int, end as int),
        0 <= r <= 0x80_0000_0000 * MAX_REGIONS + DISCONNECTED_BITS,
{
    if start == end {
        return 0;
    }
    let mut current = start;
    let mut total: i64 = 0;
    let mut visited: Vec<bool> = Vec::new();
    let mut k: usize = 0;
    while k < MAX_REGIONS
        invariant
            k <= MAX_REGIONS,
            visited@.len() == k,
            forall|j: int| 0 <= j < k ==> !(#[trigger] visited@[j]),
        decreases MAX_REGIONS - k,
    {
        visited.push(false);
        k = k + 1;
    }
    let ghost mut vis: Set<int> = Set::empty();
    let mut hops: usize = 0;
    while hops < MAX_REGIONS
        invariant
            regions_dense(cluster),
            start < MAX_REGIONS,
            end < MAX_REGIONS,
            start != end,
            current < MAX_REGIONS,
            hops <= MAX_REGIONS,
            visited@.len() == MAX_REGIONS,
            forall|j: int| 0 <= j < MAX_REGIONS ==> (#[trigger] visited@[j] <==> vis.contains(j)),
            0 <= total <= 0x80_0000_0000 * hops,
            routed_distance(cluster, current as int, end as int, vis, (MAX_REGIONS - hops) as nat, total as int)
                == path_distance(cluster, start as int, end as int),
        decreases MAX_REGIONS - hops,
    {
        if current == end {
            return total;
        }
        visited.set(current, true);
        let next = cluster.route(current, end) as usize;
        let ghost vis1 = vis.insert(current as int);
        if next == NO_PATH as usize {
            return DISCONNECTED_BITS;
        }
        if next == current {
            proof {
                assert(routed_distance(cluster, current as int, end as int, vis, (MAX_REGIONS - hops) as nat, total as int) == DISCONNECTED_BITS);
            }
            return DISCONNECTED_BITS;
        }
        assert(next < MAX_REGIONS);
        if visited[next] {
            proof {
                assert(vis1.contains(next as int));
            }
            return DISCONNECTED_BITS;
        }
        let step = region_distance(cluster, current, next);
        total = total + step;
        proof {
            assert(!vis1.contains(next as int)) by {
                assert(visited@[next as int] <==> vis1.contains(next as int));
            }
            vis = vis1;
        }
        current = next;
        hops = hops + 1;
    }
    if current != end {
        DISCONNECTED_BITS
    } else {
        total
    }
}

/// Whether regions `a` and `b` are well connected (see `well_connected`).
pub fn is_well_connected(cluster: &Cluster, a: usize, b: usize) -> (r: bool)
    requires
        regions_dense(cluster),
        a < MAX_REGIONS,
        b < MAX_REGIONS,
    ensures
        r == well_connected(cluster, a as int, b as int),
{
    if cluster.route(a, b) == NO_PATH {
        return false;
    }
    let eu = region_distance(cluster, a, b);
    if eu < EPSILON_BITS {
        return true;
    }
    let path = estimate_path_distance(cluster, a, b);
    let tort = ((path as i128) * 65536) / (eu as i128);
    tort <= (TORTUOSITY_THRESHOLD as i128) * 65536
}

/// Region indices of island `k`, or nothing where the slot is empty.
pub open spec fn members_of(c: &Cluster, k: int) -> Seq<u8> {
    match c.islands@[k] {
        Some(isl) => isl.members(),
        None => Seq::empty(),
    }
}

/// Squared distance, rounded as the fixed-point products are, from `p` to
/// the centre of the `m`-th member of island `k`, where that member exists.
pub open spec fn member_dist(c: &Cluster, p: FixedVec2, k: int, m: int) -> Option<int> {
    if c.islands@[k] is Some && 0 <= m < members_of(c, k).len() && (members_of(c, k)[m] as int) < MAX_REGIONS
        && c.regions@[members_of(c, k)[m] as int] is Some {
        let q = center_of(c, members_of(c, k)[m] as int);
        let dx = q.x.bits - p.x.bits;
        let dy = q.y.bits - p.y.bits;
        Some(fixed_mul_spec(dx, dx) + fixed_mul_spec(dy, dy))
    } else {
        None
    }
}

/// No member centre at pair `(k, m)`, or one at squared distance at least `v`.
pub open spec fn dist_ge(c: &Cluster, p: FixedVec2, k: int, m: int, v: int) -> bool {
    member_dist(c, p, k, m) matches Some(d) ==> d >= v
}

/// No member centre at pair `(k, m)`, or one at squared distance above `v`.
pub open spec fn dist_gt(c: &Cluster, p: FixedVec2, k: int, m: int, v: int) -> bool {
    member_dist(c, p, k, m) matches Some(d) ==> d > v
}

/// Pair `(k1, m1)` is examined before pair `(k2, m2)`.
pub open spec fn pair_lt(k1: int, m1: int, k2: int, m2: int) -> bool {
    k1 < k2 || (k1 == k2 && m1 < m2)
}

/// The island whose member centre lies strictly nearest `p` among the first
/// `count` islands (the first such member in island-then-member order wins
/// ties), provided it is nearer than `FAR_SQUARED_BITS`; island 0 otherwise.
pub open spec fn nearest_island_spec(c: &Cluster, p: FixedVec2, count: int, r: IslandId) -> bool {
    ||| (forall|k: int, m: int| 0 <= k < count ==> #[trigger] dist_ge(c, p, k, m, FAR_SQUARED_BITS as int)) && r
        == IslandId(0)
    ||| exists|k0: int, m0: int|
        #![trigger member_dist(c, p, k0, m0)]
        0 <= k0 < count && member_dist(c, p, k0, m0) is Some && member_dist(c, p, k0, m0)->0 < FAR_SQUARED_BITS
            && r == c.islands@[k0]->0.id && (forall|k: int, m: int|
            0 <= k < count && pair_lt(k, m, k0, m0) ==> #[trigger] dist_gt(c, p, k, m, member_dist(c, p, k0, m0)->0))
            && (forall|k: int, m: int| 0 <= k < count ==> #[trigger] dist_ge(c, p, k, m, member_dist(c, p, k0, m0)->0))
}

/// State of the nearest-island scan once every pair before `(k, m)` was examined.
pub open spec fn scan_state(c: &Cluster, p: FixedVec2, k: int, m: int, best: int, bk: int, bm: int, nearest: IslandId) -> bool {
    &&& forall|k2: int, m2: int| 0 <= k2 && pair_lt(k2, m2, k, m) ==> #[trigger] dist_ge(c, p, k2, m2, best)
    &&& bk >= -1
    &&& bk == -1 ==> best == FAR_SQUARED_BITS && nearest == IslandId(0)
    &&& bk >= 0 ==> {
        &&& member_dist(c, p, bk, bm) == Some(best)
        &&& best < FAR_SQUARED_BITS
        &&& nearest == c.islands@[bk]->0.id
        &&& pair_lt(bk, bm, k, m)
        &&& forall|k2: int, m2: int| 0 <= k2 && pair_lt(k2, m2, bk, bm) ==> #[trigger] dist_gt(c, p, k2, m2, best)
    }
}

/// Island of the region centre nearest region `i` (see `nearest_island_spec`).
#[verifier::rlimit(40)]
pub fn find_nearest_island(cluster: &Cluster, i: usize, island_count: usize) -> (r: IslandId)
    requires
        regions_dense(cluster),
        i < MAX_REGIONS,
        island_count <= MAX_ISLANDS,
    ensures
        nearest_island_spec(cluster, center_of(cluster, i as int), island_count as int, r),
{
    let p = region_center(cluster, i);
    let mut best: i64 = FAR_SQUARED_BITS;
    let mut nearest = IslandId(0);
    let ghost mut bk: int = -1;
    let ghost mut bm: int = 0;
    let mut k: usize = 0;
    while k < island_count
        invariant
            regions_dense(cluster),
            island_count <= MAX_ISLANDS,
            k <= island_count,
            p == center_of(cluster, i as int),
            p.in_range(),
            scan_state(cluster, p, k as int, 0, best as int, bk, bm, nearest),
        decreases island_count - k,
    {
        match &cluster.islands[k] {
            Some(isl) => {
                let n = isl.regions.len();
                let mut m: usize = 0;
                while m < n
                    invariant
                        regions_dense(cluster),
                        k < island_count,
                        cluster.islands@[k as int] == Some(*isl),
                        n == isl.members().len(),
                        m <= n,
                        p == center_of(cluster, i as int),
                        p.in_range(),
                        scan_state(cluster, p, k as int, m as int, best as int, bk, bm, nearest),
                    decreases n - m,
                {
                    let rid = isl.regions.get(m) as usize;
                    let ghost old_best = best as int;
                    if rid < MAX_REGIONS && cluster.regions[rid].is_some() {
                        let q = region_center(cluster, rid);
                        let dx = q.x.bits - p.x.bits;
                        let dy = q.y.bits - p.y.bits;
                        let d = FixedVec2 { x: FixedNum { bits: dx }, y: FixedNum { bits: dy } }.length_squared();
                        assert(member_dist(cluster, p, k as int, m as int) == Some(d.bits as int));
                        if d.bits < best {
                            best = d.bits;
                            nearest = isl.id;
                            proof {
                                bk = k as int;
                                bm = m as int;
                                assert forall|k2: int, m2: int| 0 <= k2 && pair_lt(k2, m2, k as int, m as int + 1) implies #[trigger] dist_ge(cluster, p, k2, m2, best as int) by {
                                    if !(k2 == k && m2 == m) {
                                        assert(dist_ge(cluster, p, k2, m2, old_best));
                                    }
                                }
                                assert forall|k2: int, m2: int| 0 <= k2 && pair_lt(k2, m2, bk, bm) implies #[trigger] dist_gt(cluster, p, k2, m2, best as int) by {
                                    assert(dist_ge(cluster, p, k2, m2, old_best));
                                }
                            }
                        } else {
                            proof {
                                assert forall|k2: int, m2: int| 0 <= k2 && pair_lt(k2, m2, k as int, m as int + 1) implies #[trigger] dist_ge(cluster, p, k2, m2, best as int) by {
                                    if !(k2 == k && m2 == m) {
                                        assert(dist_ge(cluster, p, k2, m2, old_best));
                                    }
                                }
                            }
                        }
                    } else {
                        proof {
                            assert(member_dist(cluster, p, k as int, m as int) is None);
                            assert forall|k2: int, m2: int| 0 <= k2 && pair_lt(k2, m2, k as int, m as int + 1) implies #[trigger] dist_ge(cluster, p, k2, m2, best as int) by {
                                if !(k2 == k && m2 == m) {
                                    assert(dist_ge(cluster, p, k2, m2, old_best));
                                }
                            }
                        }
                    }
                    proof {
                        assert(scan_state(cluster, p, k as int, m as int + 1, best as int, bk, bm, nearest));
                    }
                    m = m + 1;
                }
                proof {
                    assert forall|k2: int, m2: int| 0 <= k2 && pair_lt(k2, m2, k as int + 1, 0) implies #[trigger] dist_ge(cluster, p, k2, m2, best as int) by {
                        if k2 < k || m2 < n {
                            assert(dist_ge(cluster, p, k2, m2, best as int));
                        } else {
                            assert(member_dist(cluster, p, k2, m2) is None);
                        }
                    }
                }
            },
            None => {
                proof {
                    assert forall|k2: int, m2: int| 0 <= k2 && pair_lt(k2, m2, k as int + 1, 0) implies #[trigger] dist_ge(cluster, p, k2, m2, best as int) by {
                        if k2 < k {
                            assert(dist_ge(cluster, p, k2, m2, best as int));
                        } else {
                            assert(member_dist(cluster, p, k2, m2) is None);
                        }
                    }
                }
            },
        }
        k = k + 1;
    }
    proof {
        if bk >= 0 {
            let b0 = member_dist(cluster, p, bk, bm)->0;
            assert(b0 == best);
            assert forall|k2: int, m2: int| 0 <= k2 < island_count implies #[trigger] dist_ge(cluster, p, k2, m2, b0) by {
                assert(pair_lt(k2, m2, island_count as int, 0));
                assert(dist_ge(cluster, p, k2, m2, best as int));
            }
            assert forall|k2: int, m2: int| 0 <= k2 < island_count && pair_lt(k2, m2, bk, bm) implies #[trigger] dist_gt(cluster, p, k2, m2, b0) by {
                assert(dist_gt(cluster, p, k2, m2, best as int));
            }
        } else {
            assert(best == FAR_SQUARED_BITS);
            assert forall|k2: int, m2: int| 0 <= k2 < island_count implies #[trigger] dist_ge(cluster, p, k2, m2, FAR_SQUARED_BITS as int) by {
                assert(pair_lt(k2, m2, island_count as int, 0));
                assert(dist_ge(cluster, p, k2, m2, best as int));
            }
        }
    }
    nearest
}

// ---------------------------------------------------------------------------
// Island identification
// ---------------------------------------------------------------------------

/// Island recorded in region `i`.
pub open spec fn island_index(c: &Cluster, i: int) -> int {
    c.regions@[i]->0.island.0 as int
}

proof fn lemma_dense_kept(c: &Cluster, old: &Cluster)
    requires
        regions_kept(c, old),
        regions_dense(old),
    ensures
        regions_dense(c),
        forall|j: int| 0 <= j < MAX_REGIONS ==> #[trigger] center_of(c, j) == center_of(old, j),
        forall|a: int, b: int| #[trigger] c.route_spec(a, b) == old.route_spec(a, b),
        forall|j: int| 0 <= j < c.region_count ==> #[trigger] is_border(c, j) == is_border(old, j),
{
    assert forall|i: int| 0 <= i < MAX_REGIONS implies ((#[trigger] c.regions@[i] is Some) <==> i < c.region_count) by {
        assert(old.regions@[i] is Some <==> i < old.region_count);
    }
    assert forall|i: int| 0 <= i < c.region_count implies {
        let r = (#[trigger] c.regions@[i])->0;
        &&& r.id.0 == i
        &&& r.bounds.min.in_range()
        &&& r.bounds.max.in_range()
    } by {
        assert(c.regions@[i] is Some == old.regions@[i] is Some);
    }
    assert forall|j: int| 0 <= j < MAX_REGIONS implies #[trigger] center_of(c, j) == center_of(old, j) by {
        assert(c.regions@[j] is Some == old.regions@[j] is Some);
    }
    assert forall|j: int| 0 <= j < c.region_count implies #[trigger] is_border(c, j) == is_border(old, j) by {
        assert(c.regions@[j] is Some == old.regions@[j] is Some);
    }
    assert forall|i: int, j: int| 0 <= i < MAX_REGIONS && 0 <= j < MAX_REGIONS implies (#[trigger] c.route_spec(i, j) == NO_PATH
        || c.route_spec(i, j) < c.region_count) by {
        assert(c.route_spec(i, j) == old.route_spec(i, j));
        assert(old.route_spec(i, j) == NO_PATH || old.route_spec(i, j) < old.region_count);
    }
}

proof fn lemma_regions_kept_trans(c2: &Cluster, c1: &Cluster, c0: &Cluster)
    requires
        regions_kept(c2, c1),
        regions_kept(c1, c0),
    ensures
        regions_kept(c2, c0),
{
    assert forall|i: int| 0 <= i < MAX_REGIONS implies {
        &&& (#[trigger] c2.regions@[i] is Some) == c0.regions@[i] is Some
        &&& c2.regions@[i] is Some ==> {
            let r = c2.regions@[i]->0;
            let o = c0.regions@[i]->0;
            &&& r.id == o.id
            &&& r.bounds == o.bounds
            &&& r.vertices@ == o.vertices@
            &&& r.portals@ == o.portals@
            &&& r.is_dangerous == o.is_dangerous
        }
    } by {
        assert(c1.regions@[i] is Some == c0.regions@[i] is Some);
    }
}

/// Everything but the regions' island fields and the islands is as in `old`.
pub open spec fn regions_kept(c: &Cluster, old: &Cluster) -> bool {
    &&& c.wf()
    &&& c.id == old.id
    &&& c.region_count == old.region_count
    &&& c.local_routing@ == old.local_routing@
    &&& c.neighbor_connectivity@ == old.neighbor_connectivity@
    &&& forall|i: int|
        0 <= i < MAX_REGIONS ==> {
            &&& (#[trigger] c.regions@[i] is Some) == old.regions@[i] is Some
            &&& c.regions@[i] is Some ==> {
                let r = c.regions@[i]->0;
                let o = old.regions@[i]->0;
                &&& r.id == o.id
                &&& r.bounds == o.bounds
                &&& r.vertices@ == o.vertices@
                &&& r.portals@ == o.portals@
                &&& r.is_dangerous == o.is_dangerous
            }
        }
}

/// Island `k` is recorded with its own id, lists distinct regions of the
/// cluster (at least one), each of which records island `k`, and sits at the
/// centre of its first region.
pub open spec fn island_ok(c: &Cluster, k: int, assigned: Seq<bool>) -> bool {
    &&& c.islands@[k] is Some
    &&& c.islands@[k]->0.id == IslandId(k as u8)
    &&& members_of(c, k).no_duplicates()
    &&& members_of(c, k).len() >= 1
    &&& c.islands@[k]->0.representative == center_of(c, members_of(c, k)[0] as int)
    &&& forall|m: int|
        0 <= m < members_of(c, k).len() ==> {
            let i = #[trigger] members_of(c, k)[m] as int;
            &&& i < c.region_count
            &&& assigned[i]
            &&& island_index(c, i) == k
        }
}

/// The first `nisl` islands are well formed and every assigned region belongs to one.
pub open spec fn islands_so_far(c: &Cluster, assigned: Seq<bool>, nisl: int) -> bool {
    &&& 0 <= nisl <= MAX_ISLANDS
    &&& assigned.len() == MAX_REGIONS
    &&& forall|k: int| 0 <= k < nisl ==> #[trigger] island_ok(c, k, assigned)
    &&& forall|i: int| 0 <= i < c.region_count && #[trigger] assigned[i] ==> region_in(c, i, nisl)
}

/// Region `i` records one of the first `nisl` islands, which lists it.
pub open spec fn region_in(c: &Cluster, i: int, nisl: int) -> bool {
    island_index(c, i) < nisl && members_of(c, island_index(c, i)).contains(i as u8)
}

/// Every region assigned.
pub open spec fn all_assigned() -> Seq<bool> {
    Seq::new(MAX_REGIONS as nat, |j: int| true)
}

/// The islands partition the regions: each of the first `island_count`
/// islands lists distinct regions that record it, every region records one
/// of them and is listed there, and there are islands exactly when there
/// are regions.
pub open spec fn islands_partition(c: &Cluster) -> bool {
    &&& c.island_count <= MAX_ISLANDS
    &&& (c.region_count > 0 <==> c.island_count > 0)
    &&& forall|k: int|
        0 <= k < c.island_count ==> #[trigger] island_ok(c, k, all_assigned())
    &&& forall|i: int| 0 <= i < c.region_count ==> #[trigger] region_listed(c, i)
}

/// Region `i` records one of the cluster's islands, which lists it.
pub open spec fn region_listed(c: &Cluster, i: int) -> bool {
    island_index(c, i) < c.island_count && members_of(c, island_index(c, i)).contains(i as u8)
}

/// Records island `id` in region `i`.
fn set_region_island(cluster: &mut Cluster, i: usize, id: IslandId)
    requires
        old(cluster).wf(),
        i < MAX_REGIONS,
    ensures
        final(cluster).wf(),
        final(cluster).id == old(cluster).id,
        final(cluster).region_count == old(cluster).region_count,
        final(cluster).island_count == old(cluster).island_count,
        final(cluster).islands@ == old(cluster).islands@,
        final(cluster).local_routing@ == old(cluster).local_routing@,
        final(cluster).neighbor_connectivity@ == old(cluster).neighbor_connectivity@,
        forall|j: int| 0 <= j < MAX_REGIONS && j != i ==> #[trigger] final(cluster).regions@[j] == old(cluster).regions@[j],
        (final(cluster).regions@[i as int] is Some) == (old(cluster).regions@[i as int] is Some),
        old(cluster).regions@[i as int] is Some ==> {
            let r = final(cluster).regions@[i as int]->0;
            let o = old(cluster).regions@[i as int]->0;
            &&& r.id == o.id
            &&& r.bounds == o.bounds
            &&& r.vertices@ == o.vertices@
            &&& r.portals@ == o.portals@
            &&& r.is_dangerous == o.is_dangerous
            &&& r.island == id
        },
        regions_kept(final(cluster), old(cluster)),
        forall|j: int| 0 <= j < MAX_REGIONS ==> #[trigger] center_of(final(cluster), j) == center_of(old(cluster), j),
        forall|a: int, b: int| #[trigger] final(cluster).route_spec(a, b) == old(cluster).route_spec(a, b),
{
    let mut slot: Option<Region> = None;
    std::mem::swap(&mut slot, &mut cluster.regions[i]);
    match slot {
        Some(mut reg) => {
            reg.island = id;
            cluster.regions.set(i, Some(reg));
        },
        None => {
            cluster.regions.set(i, None);
        },
    }
}

/// Appends region `rid` to the list of island `k`.
fn push_island_member(cluster: &mut Cluster, k: usize, rid: u8)
    requires
        old(cluster).wf(),
        k < MAX_ISLANDS,
        old(cluster).islands@[k as int] is Some,
        old(cluster).islands@[k as int]->0.members().len() < MAX_REGIONS,
    ensures
        final(cluster).wf(),
        final(cluster).id == old(cluster).id,
        final(cluster).region_count == old(cluster).region_count,
        final(cluster).island_count == old(cluster).island_count,
        final(cluster).regions@ == old(cluster).regions@,
        final(cluster).local_routing@ == old(cluster).local_routing@,
        final(cluster).neighbor_connectivity@ == old(cluster).neighbor_connectivity@,
        forall|j: int| 0 <= j < MAX_ISLANDS && j != k ==> #[trigger] final(cluster).islands@[j] == old(cluster).islands@[j],
        final(cluster).islands@[k as int] is Some,
        final(cluster).islands@[k as int]->0.id == old(cluster).islands@[k as int]->0.id,
        final(cluster).islands@[k as int]->0.representative == old(cluster).islands@[k as int]->0.representative,
        final(cluster).islands@[k as int]->0.members() == old(cluster).islands@[k as int]->0.members().push(rid),
{
    let mut slot: Option<Island> = None;
    std::mem::swap(&mut slot, &mut cluster.islands[k]);
    match slot {
        Some(mut isl) => {
            isl.regions.push(rid);
            cluster.islands.set(k, Some(isl));
        },
        None => {
            cluster.islands.set(k, None);
        },
    }
}

/// Region `i` touches the border of its cluster.
pub open spec fn is_border(c: &Cluster, i: int) -> bool {
    touches_border(c.regions@[i]->0.bounds)
}

/// Indices of the regions touching the cluster border, in increasing order.
fn collect_boundary(cluster: &Cluster) -> (b: Vec<usize>)
    requires
        regions_dense(cluster),
    ensures
        forall|j: int| 0 <= j < b@.len() ==> (#[trigger] b@[j]) < cluster.region_count && is_border(cluster, b@[j] as int),
        forall|j1: int, j2: int| 0 <= j1 < j2 < b@.len() ==> #[trigger] b@[j1] < #[trigger] b@[j2],
        forall|i: int| 0 <= i < cluster.region_count && is_border(cluster, i) ==> #[trigger] b@.contains(i as usize),
{
    let mut b: Vec<usize> = Vec::new();
    let mut i: usize = 0;
    while i < cluster.region_count
        invariant
            regions_dense(cluster),
            i <= cluster.region_count,
            forall|j: int| 0 <= j < b@.len() ==> (#[trigger] b@[j]) < i && is_border(cluster, b@[j] as int),
            forall|j1: int, j2: int| 0 <= j1 < j2 < b@.len() ==> #[trigger] b@[j1] < #[trigger] b@[j2],
            forall|k: int| 0 <= k < i && is_border(cluster, k) ==> #[trigger] b@.contains(k as usize),
        decreases cluster.region_count - i,
    {
        let ghost before = b@;
        match &cluster.regions[i] {
            Some(reg) => {
                if is_boundary_region(reg) {
                    b.push(i);
                    proof {
                        assert forall|j: int| 0 <= j < b@.len() implies (#[trigger] b@[j]) < i + 1 && is_border(cluster, b@[j] as int) by {
                            if j < before.len() {
                                assert(b@[j] == before[j]);
                            }
                        }
                    }
                    proof {
                        assert(b@[before.len() as int] == i);
                        assert forall|k: int| 0 <= k < i + 1 && is_border(cluster, k) implies #[trigger] b@.contains(k as usize) by {
                            if k < i {
                                assert(before.contains(k as usize));
                                let j = choose|j: int| 0 <= j < before.len() && before[j] == k as usize;
                                assert(b@[j] == before[j]);
                            } else {
                                assert(b@[before.len() as int] == k as usize);
                            }
                        }
                    }
                }
            },
            None => {},
        }
        i = i + 1;
    }
    b
}

/// With no border region, all regions form island 0.
fn single_island(cluster: &mut Cluster)
    requires
        regions_dense(old(cluster)),
        old(cluster).region_count > 0,
    ensures
        regions_kept(final(cluster), old(cluster)),
        regions_dense(final(cluster)),
        final(cluster).island_count == 1,
        islands_partition(final(cluster)),
        forall|k: int| 1 <= k < MAX_ISLANDS ==> #[trigger] final(cluster).islands@[k] == old(cluster).islands@[k],
        members_of(final(cluster), 0)[0] == 0,
        final(cluster).islands@[0]->0.representative == center_of(final(cluster), 0),
        forall|j: int| 0 <= j < final(cluster).region_count ==> #[trigger] island_index(final(cluster), j) == 0,
{
    let count = cluster.region_count;
    let mut list = RegionList::new();
    let mut i: usize = 0;
    while i < count
        invariant
            regions_kept(cluster, old(cluster)),
            regions_dense(cluster),
            regions_dense(old(cluster)),
            cluster.islands@ == old(cluster).islands@,
            cluster.island_count == old(cluster).island_count,
            count == cluster.region_count,
            i <= count,
            region_list_items(list) == Seq::new(i as nat, |j: int| j as u8),
            forall|j: int| 0 <= j < i ==> #[trigger] island_index(cluster, j) == 0,
        decreases count - i,
    {
        let id = match &cluster.regions[i] {
            Some(r) => r.id,
            None => RegionId(0),
        };
        list.push(id.0);
        let ghost mid = *cluster;
        set_region_island(cluster, i, IslandId(0));
        proof {
            lemma_regions_kept_trans(cluster, &mid, old(cluster));
            lemma_dense_kept(cluster, old(cluster));
            assert(region_list_items(list) =~= Seq::new((i + 1) as nat, |j: int| j as u8));
            assert(id.0 == i);
            assert(island_index(cluster, i as int) == 0);
            assert forall|j: int| 0 <= j < i + 1 implies #[trigger] island_index(cluster, j) == 0 by {
                if j < i {
                    assert(mid.regions@[j] == cluster.regions@[j]);
                    assert(island_index(&mid, j) == 0);
                }
            }
        }
        i = i + 1;
    }
    let ghost c_end = *cluster;
    let representative = region_center(cluster, 0);
    cluster.islands.set(0, Some(Island { id: IslandId(0), representative, regions: list }));
    cluster.island_count = 1;
    proof {
        lemma_dense_kept(cluster, old(cluster));
        let ms = members_of(cluster, 0);
        assert(ms =~= Seq::new(count as nat, |j: int| j as u8));
        assert(ms.no_duplicates()) by {
            assert forall|a: int, b: int| 0 <= a < ms.len() && 0 <= b < ms.len() && a != b implies ms[a] != ms[b] by {}
        }
        assert(ms.len() == count);
        assert(ms[0] == 0u8);
        assert(cluster.islands@[0]->0.representative == center_of(cluster, 0));
        assert forall|m: int| 0 <= m < ms.len() implies {
            let i = #[trigger] ms[m] as int;
            &&& i < cluster.region_count
            &&& all_assigned()[i]
            &&& island_index(cluster, i) == 0
        } by {
            assert(ms[m] == m as u8);
            assert(island_index(&c_end, m) == 0);
            assert(c_end.regions@ == cluster.regions@);
        }
        assert(island_ok(cluster, 0, all_assigned()));
        assert forall|j: int| 0 <= j < count implies island_index(cluster, j) < cluster.island_count && #[trigger] members_of(
            cluster,
            island_index(cluster, j),
        ).contains(j as u8) by {
            assert(ms[j] == j as u8);
            assert(island_index(&c_end, j) == 0);
            assert(c_end.regions@ == cluster.regions@);
        }
        assert forall|k: int| 0 <= k < cluster.island_count implies #[trigger] island_ok(cluster, k, all_assigned()) by {
            assert(k == 0);
        }
        assert(cluster.island_count <= MAX_ISLANDS);
        assert(cluster.region_count > 0);
        assert(cluster.island_count == 1);
        assert(cluster.region_count > 0 <==> cluster.island_count > 0);
        assert forall|i: int| 0 <= i < cluster.region_count implies #[trigger] region_listed(cluster, i) by {
            assert(ms[i] == i as u8);
            assert(island_index(&c_end, i) == 0);
            assert(c_end.regions@ == cluster.regions@);
            assert(members_of(cluster, 0)[i] == i as u8);
        }
        assert(islands_partition(cluster));
        assert forall|j: int| 0 <= j < cluster.region_count implies #[trigger] island_index(cluster, j) == 0 by {
            assert(island_index(&c_end, j) == 0);
            assert(c_end.regions@ == cluster.regions@);
        }
    }
}

/// Number of regions not yet assigned to an island.
pub open spec fn count_false(a: Seq<bool>) -> int
    decreases a.len(),
{
    if a.len() == 0 {
        0
    } else {
        count_false(a.drop_last()) + if a.last() { 0int } else { 1int }
    }
}

proof fn lemma_count_false_set(a: Seq<bool>, i: int)
    requires
        0 <= i < a.len(),
        !a[i],
    ensures
        count_false(a.update(i, true)) == count_false(a) - 1,
        count_false(a) >= 1,
    decreases a.len(),
{
    lemma_count_false_nonneg(a.drop_last());
    if i == a.len() - 1 {
        assert(a.update(i, true).drop_last() =~= a.drop_last());
    } else {
        lemma_count_false_set(a.drop_last(), i);
        assert(a.update(i, true).drop_last() =~= a.drop_last().update(i, true));
    }
}

proof fn lemma_count_false_nonneg(a: Seq<bool>)
    ensures
        count_false(a) >= 0,
    decreases a.len(),
{
    if a.len() > 0 {
        lemma_count_false_nonneg(a.drop_last());
    }
}

/// The border regions, as listed by `collect_boundary`.
pub open spec fn boundary_list_ok(c: &Cluster, b: Seq<usize>) -> bool {
    &&& forall|j: int| 0 <= j < b.len() ==> (#[trigger] b[j]) < c.region_count && is_border(c, b[j] as int)
    &&& forall|j1: int, j2: int| 0 <= j1 < j2 < b.len() ==> #[trigger] b[j1] < #[trigger] b[j2]
    &&& forall|i: int| 0 <= i < c.region_count && is_border(c, i) ==> #[trigger] b.contains(i as usize)
}

proof fn lemma_routed_same(c1: &Cluster, c2: &Cluster, cur: int, end: int, visited: Set<int>, fuel: nat, total: int)
    requires
        regions_dense(c1),
        forall|a: int, b: int| #[trigger] c1.route_spec(a, b) == c2.route_spec(a, b),
        forall|j: int| 0 <= j < MAX_REGIONS ==> #[trigger] center_of(c1, j) == center_of(c2, j),
        0 <= cur < MAX_REGIONS,
        0 <= end < MAX_REGIONS,
    ensures
        routed_distance(c1, cur, end, visited, fuel, total) == routed_distance(c2, cur, end, visited, fuel, total),
    decreases fuel,
{
    if cur != end && fuel > 0 {
        let next = c1.route_spec(cur, end) as int;
        if !(next == NO_PATH || next == cur || visited.insert(cur).contains(next)) {
            assert(next < c1.region_count);
            assert(center_distance(c1, cur, next) == center_distance(c2, cur, next));
            lemma_routed_same(c1, c2, next, end, visited.insert(cur), (fuel - 1) as nat, total + center_distance(c1, cur, next));
        }
    }
}

/// Whether two regions are well connected depends on the routing table and
/// the region bounds alone.
proof fn lemma_wc_same(c1: &Cluster, c2: &Cluster)
    requires
        regions_dense(c1),
        forall|a: int, b: int| #[trigger] c1.route_spec(a, b) == c2.route_spec(a, b),
        forall|j: int| 0 <= j < MAX_REGIONS ==> #[trigger] center_of(c1, j) == center_of(c2, j),
    ensures
        forall|a: int, b: int| 0 <= a < MAX_REGIONS && 0 <= b < MAX_REGIONS ==> #[trigger] well_connected(c1, a, b) == well_connected(c2, a, b),
{
    assert forall|a: int, b: int| 0 <= a < MAX_REGIONS && 0 <= b < MAX_REGIONS implies #[trigger] well_connected(c1, a, b) == well_connected(c2, a, b) by {
        assert(center_distance(c1, a, b) == center_distance(c2, a, b));
        if a != b {
            lemma_routed_same(c1, c2, a, b, Set::empty(), MAX_REGIONS as nat, 0);
        }
    }
}

/// Every border region (listed in `b`) well connected from a region of
/// `cur` is assigned.
pub open spec fn flood_closed(c: &Cluster, cur: Seq<u8>, a: Seq<bool>, b: Seq<usize>) -> bool {
    forall|m: int, t: int|
        0 <= m < cur.len() && 0 <= t < b.len() && #[trigger] well_connected(c, cur[m] as int, b[t] as int) ==> a[b[t] as int]
}

/// Invariant of the flood that builds island `nisl` from `seed`.
pub open spec fn flood_inv(
    c: &Cluster,
    old_c: &Cluster,
    old_a: Seq<bool>,
    a: Seq<bool>,
    b: Seq<usize>,
    seed: int,
    nisl: int,
    cur: Seq<u8>,
    stack: Seq<usize>,
) -> bool {
    &&& regions_kept(c, old_c)
    &&& regions_dense(c)
    &&& c.islands@ == old_c.islands@
    &&& c.island_count == old_c.island_count
    &&& a.len() == MAX_REGIONS
    &&& 0 <= nisl < MAX_ISLANDS
    &&& forall|k: int| 0 <= k < nisl ==> #[trigger] island_ok(c, k, a)
    &&& cur.no_duplicates()
    &&& forall|m: int|
        0 <= m < cur.len() ==> {
            let i = #[trigger] cur[m] as int;
            &&& i < c.region_count
            &&& a[i]
            &&& island_index(c, i) == nisl
        }
    &&& cur.len() >= 1 ==> cur[0] == seed
    &&& cur.len() == 0 ==> stack == seq![seed as usize]
    &&& stack.no_duplicates()
    &&& forall|j: int|
        0 <= j < stack.len() ==> {
            let i = #[trigger] stack[j] as int;
            &&& i < c.region_count
            &&& a[i]
            &&& !cur.contains(i as u8)
            &&& forall|k: int| 0 <= k < nisl ==> !(#[trigger] members_of(c, k)).contains(i as u8)
        }
    &&& forall|i: int|
        0 <= i < c.region_count && #[trigger] a[i] ==> region_in(c, i, nisl) || cur.contains(i as u8)
            || stack.contains(i as usize)
    &&& forall|i: int| 0 <= i < MAX_REGIONS && #[trigger] old_a[i] ==> a[i]
    &&& forall|i: int| 0 <= i < MAX_REGIONS && #[trigger] a[i] && !old_a[i] ==> i == seed || b.contains(i as usize)
    &&& cur.len() + stack.len() + count_false(a) <= MAX_REGIONS
}

proof fn lemma_count_false_le(a: Seq<bool>)
    ensures
        count_false(a) <= a.len(),
    decreases a.len(),
{
    if a.len() > 0 {
        lemma_count_false_le(a.drop_last());
    }
}

/// Builds island `nisl` from border region `seed`: the island takes every
/// border region reachable from `seed` through chains of well-connected,
/// not yet assigned border regions, in the order a depth-first flood
/// visits them.
fn flood_island(cluster: &mut Cluster, assigned: &mut Vec<bool>, boundary: &Vec<usize>, seed: usize, nisl: usize)
    requires
        regions_dense(old(cluster)),
        boundary_list_ok(old(cluster), boundary@),
        boundary@.contains(seed),
        !old(assigned)@[seed as int],
        nisl < MAX_ISLANDS,
        islands_so_far(old(cluster), old(assigned)@, nisl as int),
    ensures
        regions_kept(final(cluster), old(cluster)),
        regions_dense(final(cluster)),
        final(cluster).island_count == old(cluster).island_count,
        islands_so_far(final(cluster), final(assigned)@, nisl + 1),
        members_of(final(cluster), nisl as int)[0] == seed,
        final(assigned)@[seed as int],
        forall|i: int| 0 <= i < MAX_REGIONS && #[trigger] old(assigned)@[i] ==> final(assigned)@[i],
        forall|i: int|
            0 <= i < MAX_REGIONS && #[trigger] final(assigned)@[i] && !old(assigned)@[i] ==> boundary@.contains(
                i as usize,
            ),
        forall|k: int| 0 <= k < MAX_ISLANDS && k != nisl ==> #[trigger] final(cluster).islands@[k] == old(cluster).islands@[k],
        flood_closed(old(cluster), members_of(final(cluster), nisl as int), final(assigned)@, boundary@),
{
    let ghost old_a = assigned@;
    let ghost b = boundary@;
    let mut list = RegionList::new();
    let mut stack: Vec<usize> = Vec::new();
    stack.push(seed);
    assigned.set(seed, true);
    proof {
        assert forall|k: int| 0 <= k < nisl implies #[trigger] island_ok(cluster, k, assigned@) by {
            assert(island_ok(cluster, k, old_a));
        }
        assert forall|i: int| 0 <= i < cluster.region_count && #[trigger] assigned@[i] implies region_in(cluster, i, nisl as int)
            || region_list_items(list).contains(i as u8) || stack@.contains(i as usize) by {
            if i == seed {
                assert(stack@[0] == seed);
            } else {
                assert(old_a[i]);
            }
        }
        assert forall|k: int| 0 <= k < nisl implies !(#[trigger] members_of(cluster, k)).contains(seed as u8) by {
            if members_of(cluster, k).contains(seed as u8) {
                let m = choose|m: int| 0 <= m < members_of(cluster, k).len() && members_of(cluster, k)[m] == seed as u8;
                assert(island_ok(cluster, k, old_a));
                assert(old_a[members_of(cluster, k)[m] as int]);
            }
        }
        assert(seed < cluster.region_count) by {
            let j = choose|j: int| 0 <= j < b.len() && b[j] == seed;
        }
        lemma_count_false_set(old_a, seed as int);
        lemma_count_false_le(old_a);
        assert(flood_inv(cluster, old(cluster), old_a, assigned@, b, seed as int, nisl as int, region_list_items(list), stack@));
    }
    while stack.len() > 0
        invariant
            regions_dense(old(cluster)),
            boundary_list_ok(old(cluster), b),
            b == boundary@,
            boundary@.contains(seed),
            nisl < MAX_ISLANDS,
            flood_inv(cluster, old(cluster), old_a, assigned@, b, seed as int, nisl as int, region_list_items(list), stack@),
            flood_closed(old(cluster), region_list_items(list), assigned@, b),
        decreases count_false(assigned@), stack@.len(),
    {
        let ghost a0 = assigned@;
        let ghost st0 = stack@;
        let ghost cur0 = region_list_items(list);
        let current = match stack.pop() {
            Some(v) => v,
            None => {
                return;
            },
        };
        assert(stack@ == st0.drop_last());
        assert(current == st0.last());
        proof {
            lemma_count_false_nonneg(assigned@);
        }
        let ghost c0 = *cluster;
        list.push(current as u8);
        set_region_island(cluster, current, IslandId(nisl as u8));
        proof {
            lemma_regions_kept_trans(cluster, &c0, old(cluster));
            lemma_dense_kept(cluster, old(cluster));
            let cur1 = region_list_items(list);
            assert(cur1 == cur0.push(current as u8));
            assert(!cur0.contains(current as u8));
            assert forall|k: int| 0 <= k < nisl implies #[trigger] island_ok(cluster, k, assigned@) by {
                assert(island_ok(&c0, k, a0));
                assert(!members_of(&c0, k).contains(current as u8));
                assert(members_of(cluster, k) == members_of(&c0, k));
                assert forall|m: int| 0 <= m < members_of(cluster, k).len() implies {
                    let i = #[trigger] members_of(cluster, k)[m] as int;
                    &&& i < cluster.region_count
                    &&& assigned@[i]
                    &&& island_index(cluster, i) == k
                } by {
                    let i = members_of(&c0, k)[m] as int;
                    assert(i != current);
                    assert(cluster.regions@[i] == c0.regions@[i]);
                }
            }
            assert(cur1.no_duplicates()) by {
                assert forall|x: int, y: int| 0 <= x < cur1.len() && 0 <= y < cur1.len() && x != y implies cur1[x] != cur1[y] by {
                    if x == cur0.len() {
                        assert(cur1[y] == cur0[y]);
                    } else if y == cur0.len() {
                        assert(cur1[x] == cur0[x]);
                    }
                }
            }
            let st1 = stack@;
            assert forall|m: int| 0 <= m < cur1.len() implies {
                let i = #[trigger] cur1[m] as int;
                &&& i < cluster.region_count
                &&& assigned@[i]
                &&& island_index(cluster, i) == nisl
            } by {
                if m < cur0.len() {
                    assert(cur1[m] == cur0[m]);
                    assert(cur0[m] as int != current);
                    assert(cluster.regions@[cur0[m] as int] == c0.regions@[cur0[m] as int]);
                }
            }
            assert(cur1.len() >= 1 ==> cur1[0] == seed) by {
                if cur0.len() == 0 {
                    assert(st0 == seq![seed as usize]);
                }
            }
            assert(st1.no_duplicates()) by {
                assert forall|x: int, y: int| 0 <= x < st1.len() && 0 <= y < st1.len() && x != y implies st1[x] != st1[y] by {
                    assert(st1[x] == st0[x] && st1[y] == st0[y]);
                }
            }
            assert forall|q: int| 0 <= q < st1.len() implies {
                let i = #[trigger] st1[q] as int;
                &&& i < cluster.region_count
                &&& assigned@[i]
                &&& !cur1.contains(i as u8)
                &&& forall|k: int| 0 <= k < nisl ==> !(#[trigger] members_of(cluster, k)).contains(i as u8)
            } by {
                assert(st1[q] == st0[q]);
                assert(st0[q] != st0[st0.len() - 1]);
                if cur1.contains(st1[q] as u8) {
                    let m = choose|m: int| 0 <= m < cur1.len() && cur1[m] == st1[q] as u8;
                    if m < cur0.len() {
                        assert(cur1[m] == cur0[m]);
                    }
                }
                assert forall|k: int| 0 <= k < nisl implies !(#[trigger] members_of(cluster, k)).contains(st1[q] as u8) by {
                    assert(members_of(cluster, k) == members_of(&c0, k));
                }
            }
            assert forall|i: int| 0 <= i < cluster.region_count && #[trigger] assigned@[i] implies region_in(cluster, i, nisl as int)
                || cur1.contains(i as u8) || st1.contains(i as usize) by {
                if i == current {
                    assert(cur1[cur0.len() as int] == current as u8);
                } else if region_in(&c0, i, nisl as int) {
                    assert(cluster.regions@[i] == c0.regions@[i]);
                    assert(members_of(cluster, island_index(cluster, i)) == members_of(&c0, island_index(&c0, i)));
                } else if cur0.contains(i as u8) {
                    let m = choose|m: int| 0 <= m < cur0.len() && cur0[m] == i as u8;
                    assert(cur1[m] == cur0[m]);
                } else {
                    assert(st0.contains(i as usize));
                    let q = choose|q: int| 0 <= q < st0.len() && st0[q] == i as usize;
                    assert(q != st0.len() - 1);
                    assert(st1[q] == st0[q]);
                }
            }
        }
        let mut j: usize = 0;
        while j < boundary.len()
            invariant
                regions_dense(old(cluster)),
                boundary_list_ok(old(cluster), b),
                b == boundary@,
                boundary@.contains(seed),
                nisl < MAX_ISLANDS,
                j <= boundary@.len(),
                current < cluster.region_count,
                region_list_items(list).len() >= 1,
                flood_inv(cluster, old(cluster), old_a, assigned@, b, seed as int, nisl as int, region_list_items(list), stack@),
                count_false(assigned@) < count_false(a0) || (count_false(assigned@) == count_false(a0) && stack@.len() < st0.len()),
                region_list_items(list) == cur0.push(current as u8),
                flood_closed(old(cluster), cur0, assigned@, b),
                forall|t: int| 0 <= t < j && #[trigger] well_connected(old(cluster), current as int, b[t] as int) ==> assigned@[b[t] as int],
            decreases boundary@.len() - j,
        {
            let cand = boundary[j];
            proof {
                assert(boundary_list_ok(old(cluster), b));
                assert(cand < old(cluster).region_count);
                lemma_dense_kept(cluster, old(cluster));
                lemma_wc_same(cluster, old(cluster));
            }
            let ghost a_pre = assigned@;
            if !assigned[cand] && is_well_connected(cluster, current, cand) {
                let ghost a1 = assigned@;
                let ghost s1 = stack@;
                proof {
                    lemma_count_false_set(a1, cand as int);
                }
                assigned.set(cand, true);
                stack.push(cand);
                proof {
                    let cur = region_list_items(list);
                    assert(!cur.contains(cand as u8)) by {
                        if cur.contains(cand as u8) {
                            let m = choose|m: int| 0 <= m < cur.len() && cur[m] == cand as u8;
                            assert(a1[cur[m] as int]);
                        }
                    }
                    assert forall|k: int| 0 <= k < nisl implies !(#[trigger] members_of(cluster, k)).contains(cand as u8) by {
                        if members_of(cluster, k).contains(cand as u8) {
                            let m = choose|m: int| 0 <= m < members_of(cluster, k).len() && members_of(cluster, k)[m] == cand as u8;
                            assert(island_ok(cluster, k, a1));
                            assert(a1[members_of(cluster, k)[m] as int]);
                        }
                    }
                    assert(!s1.contains(cand)) by {
                        if s1.contains(cand) {
                            let q = choose|q: int| 0 <= q < s1.len() && s1[q] == cand;
                            assert(a1[s1[q] as int]);
                        }
                    }
                    assert forall|k: int| 0 <= k < nisl implies #[trigger] island_ok(cluster, k, assigned@) by {
                        assert(island_ok(cluster, k, a1));
                    }
                    assert(stack@.no_duplicates()) by {
                        assert forall|x: int, y: int| 0 <= x < stack@.len() && 0 <= y < stack@.len() && x != y implies stack@[x] != stack@[y] by {
                            if x == s1.len() {
                                assert(stack@[y] == s1[y]);
                            } else if y == s1.len() {
                                assert(stack@[x] == s1[x]);
                            }
                        }
                    }
                    assert forall|q: int| 0 <= q < stack@.len() implies {
                        let i = #[trigger] stack@[q] as int;
                        &&& i < cluster.region_count
                        &&& assigned@[i]
                        &&& !cur.contains(i as u8)
                        &&& forall|k: int| 0 <= k < nisl ==> !(#[trigger] members_of(cluster, k)).contains(i as u8)
                    } by {
                        if q < s1.len() {
                            assert(stack@[q] == s1[q]);
                        }
                    }
                    assert forall|i: int| 0 <= i < cluster.region_count && #[trigger] assigned@[i] implies region_in(cluster, i, nisl as int)
                        || cur.contains(i as u8) || stack@.contains(i as usize) by {
                        if i == cand {
                            assert(stack@[s1.len() as int] == cand);
                        } else if s1.contains(i as usize) {
                            let q = choose|q: int| 0 <= q < s1.len() && s1[q] == i as usize;
                            assert(stack@[q] == s1[q]);
                        }
                    }
                    assert forall|i: int| 0 <= i < MAX_REGIONS && #[trigger] assigned@[i] && !old_a[i] implies i == seed
                        || b.contains(i as usize) by {
                        if i == cand {
                            assert(b[j as int] == cand);
                        }
                    }
                }
            }
            proof {
                assert forall|i: int| 0 <= i < MAX_REGIONS && a_pre[i] implies #[trigger] assigned@[i] by {}
                assert forall|m: int, t: int|
                    0 <= m < cur0.len() && 0 <= t < b.len() && #[trigger] well_connected(old(cluster), cur0[m] as int, b[t] as int) implies assigned@[b[t] as int] by {
                    assert(a_pre[b[t] as int]);
                }
                assert forall|t: int| 0 <= t < j + 1 && #[trigger] well_connected(old(cluster), current as int, b[t] as int) implies assigned@[b[t] as int] by {
                    if t == j {
                        assert(b[t] == cand);
                        assert(well_connected(cluster, current as int, cand as int) == well_connected(old(cluster), current as int, cand as int));
                    } else {
                        assert(a_pre[b[t] as int]);
                    }
                }
            }
            j = j + 1;
        }
        proof {
            let cur1 = region_list_items(list);
            assert forall|m: int, t: int|
                0 <= m < cur1.len() && 0 <= t < b.len() && #[trigger] well_connected(old(cluster), cur1[m] as int, b[t] as int) implies assigned@[b[t] as int] by {
                if m < cur0.len() {
                    assert(cur1[m] == cur0[m]);
                } else {
                    assert(cur1[m] == current as u8);
                }
            }
        }
        proof {
            lemma_count_false_nonneg(assigned@);
        }
    }
    let representative = region_center(cluster, seed);
    let ghost c1 = *cluster;
    let ghost cur = region_list_items(list);
    cluster.islands.set(nisl, Some(Island { id: IslandId(nisl as u8), representative, regions: list }));
    proof {
        lemma_dense_kept(cluster, old(cluster));
        assert(members_of(cluster, nisl as int) == cur);
        assert(cur.len() >= 1);
        assert forall|k: int| 0 <= k < nisl + 1 implies #[trigger] island_ok(cluster, k, assigned@) by {
            if k < nisl {
                assert(island_ok(&c1, k, assigned@));
                assert(members_of(cluster, k) == members_of(&c1, k));
            } else {
                assert forall|m: int| 0 <= m < cur.len() implies {
                    let i = #[trigger] cur[m] as int;
                    &&& i < cluster.region_count
                    &&& assigned@[i]
                    &&& island_index(cluster, i) == k
                } by {
                    assert(island_index(&c1, cur[m] as int) == nisl);
                }
            }
        }
        assert forall|i: int| 0 <= i < cluster.region_count && #[trigger] assigned@[i] implies region_in(cluster, i, nisl + 1) by {
            if region_in(&c1, i, nisl as int) {
                assert(members_of(cluster, island_index(&c1, i)) == members_of(&c1, island_index(&c1, i)));
            } else {
                assert(cur.contains(i as u8));
                let m = choose|m: int| 0 <= m < cur.len() && cur[m] == i as u8;
                assert(island_index(&c1, i) == nisl);
            }
        }
        assert(assigned@[seed as int]);
    }
}

/// Distinct region indices below `n` that miss index `v < n` are at most `n - 1`.
proof fn lemma_members_bound(s: Seq<u8>, n: int, v: int)
    requires
        s.no_duplicates(),
        0 <= v < n,
        forall|i: int| 0 <= i < s.len() ==> (#[trigger] s[i] as int) < n && s[i] as int != v,
    ensures
        s.len() <= n - 1,
{
    let t = s.map_values(|x: u8| x as int);
    assert(t.no_duplicates()) by {
        assert forall|i: int, j: int| 0 <= i < t.len() && 0 <= j < t.len() && i != j implies t[i] != t[j] by {
            assert(s[i] != s[j]);
        }
    }
    t.unique_seq_to_set();
    lemma_int_range(0, n);
    let r = set_int_range(0, n).remove(v);
    assert(t.to_set().subset_of(r)) by {
        assert forall|x: int| t.to_set().contains(x) implies r.contains(x) by {
            let i = choose|i: int| 0 <= i < t.len() && t[i] == x;
            assert(t[i] == s[i] as int);
        }
    }
    assert(set_int_range(0, n).contains(v));
    lemma_len_subset(t.to_set(), r);
}

/// With more border islands than slots, every border region still
/// unassigned joins the last island.
fn merge_remaining(cluster: &mut Cluster, assigned: &mut Vec<bool>, boundary: &Vec<usize>)
    requires
        regions_dense(old(cluster)),
        boundary_list_ok(old(cluster), boundary@),
        islands_so_far(old(cluster), old(assigned)@, MAX_ISLANDS as int),
    ensures
        regions_kept(final(cluster), old(cluster)),
        regions_dense(final(cluster)),
        final(cluster).island_count == old(cluster).island_count,
        islands_so_far(final(cluster), final(assigned)@, MAX_ISLANDS as int),
        forall|i: int| 0 <= i < MAX_REGIONS && #[trigger] old(assigned)@[i] ==> final(assigned)@[i],
        forall|j: int| 0 <= j < boundary@.len() ==> #[trigger] final(assigned)@[boundary@[j] as int],
        forall|k: int| 0 <= k < MAX_ISLANDS ==> #[trigger] members_of(final(cluster), k).len() >= 1 && members_of(final(cluster), k)[0] == members_of(old(cluster), k)[0],
        forall|i: int| 0 <= i < MAX_REGIONS && #[trigger] final(assigned)@[i] && !old(assigned)@[i] ==> boundary@.contains(i as usize),
        forall|k: int| 0 <= k < MAX_ISLANDS - 1 ==> #[trigger] final(cluster).islands@[k] == old(cluster).islands@[k],
        forall|i: int| 0 <= i < MAX_REGIONS && #[trigger] old(assigned)@[i] ==> final(cluster).regions@[i] == old(cluster).regions@[i],
{
    let last: usize = MAX_ISLANDS - 1;
    let mut j: usize = 0;
    proof {
        assert forall|k: int| 0 <= k < MAX_ISLANDS implies #[trigger] members_of(cluster, k).len() >= 1 && members_of(cluster, k)[0] == members_of(old(cluster), k)[0] by {
            assert(island_ok(cluster, k, assigned@));
        }
    }
    while j < boundary.len()
        invariant
            regions_dense(old(cluster)),
            boundary_list_ok(old(cluster), boundary@),
            regions_kept(cluster, old(cluster)),
            regions_dense(cluster),
            cluster.island_count == old(cluster).island_count,
            islands_so_far(cluster, assigned@, MAX_ISLANDS as int),
            j <= boundary@.len(),
            last == MAX_ISLANDS - 1,
            forall|i: int| 0 <= i < MAX_REGIONS && #[trigger] old(assigned)@[i] ==> assigned@[i],
            forall|q: int| 0 <= q < j ==> #[trigger] assigned@[boundary@[q] as int],
            forall|k: int| 0 <= k < MAX_ISLANDS ==> #[trigger] members_of(cluster, k).len() >= 1 && members_of(cluster, k)[0] == members_of(old(cluster), k)[0],
            forall|i: int| 0 <= i < MAX_REGIONS && #[trigger] assigned@[i] && !old(assigned)@[i] ==> boundary@.contains(i as usize),
            forall|k: int| 0 <= k < MAX_ISLANDS - 1 ==> #[trigger] cluster.islands@[k] == old(cluster).islands@[k],
            forall|i: int| 0 <= i < MAX_REGIONS && #[trigger] old(assigned)@[i] ==> cluster.regions@[i] == old(cluster).regions@[i],
        decreases boundary@.len() - j,
    {
        let r = boundary[j];
        proof {
            assert(r < old(cluster).region_count);
        }
        if !assigned[r] {
            let ghost c0 = *cluster;
            let ghost a0 = assigned@;
            proof {
                assert(island_ok(cluster, last as int, a0));
                let ms = members_of(cluster, last as int);
                assert forall|i: int| 0 <= i < ms.len() implies (#[trigger] ms[i] as int) < MAX_REGIONS && ms[i] as int != r by {
                    assert(a0[ms[i] as int]);
                }
                lemma_members_bound(ms, MAX_REGIONS as int, r as int);
            }
            assigned.set(r, true);
            push_island_member(cluster, last, r as u8);
            let ghost c1 = *cluster;
            set_region_island(cluster, r, IslandId(last as u8));
            proof {
                lemma_regions_kept_trans(cluster, &c1, &c0);
                lemma_regions_kept_trans(cluster, &c0, old(cluster));
                lemma_dense_kept(cluster, old(cluster));
                let msl = members_of(cluster, last as int);
                let ms0 = members_of(&c0, last as int);
                assert(msl == ms0.push(r as u8));
                assert(!ms0.contains(r as u8)) by {
                    if ms0.contains(r as u8) {
                        let m = choose|m: int| 0 <= m < ms0.len() && ms0[m] == r as u8;
                        assert(a0[ms0[m] as int]);
                    }
                }
                assert forall|k: int| 0 <= k < MAX_ISLANDS implies #[trigger] island_ok(cluster, k, assigned@) by {
                    assert(island_ok(&c0, k, a0));
                    if k == last {
                        assert(msl.no_duplicates()) by {
                            assert forall|x: int, y: int| 0 <= x < msl.len() && 0 <= y < msl.len() && x != y implies msl[x] != msl[y] by {
                                if x == ms0.len() {
                                    assert(msl[y] == ms0[y]);
                                } else if y == ms0.len() {
                                    assert(msl[x] == ms0[x]);
                                }
                            }
                        }
                        assert(msl[0] == ms0[0]);
                        assert forall|m: int| 0 <= m < msl.len() implies {
                            let i = #[trigger] msl[m] as int;
                            &&& i < cluster.region_count
                            &&& assigned@[i]
                            &&& island_index(cluster, i) == k
                        } by {
                            if m < ms0.len() {
                                assert(msl[m] == ms0[m]);
                                assert(ms0[m] as int != r);
                                assert(cluster.regions@[ms0[m] as int] == c0.regions@[ms0[m] as int]);
                            }
                        }
                    } else {
                        assert(members_of(cluster, k) == members_of(&c0, k));
                        let ms = members_of(&c0, k);
                        assert(!ms.contains(r as u8)) by {
                            if ms.contains(r as u8) {
                                let m = choose|m: int| 0 <= m < ms.len() && ms[m] == r as u8;
                                assert(a0[ms[m] as int]);
                            }
                        }
                        assert forall|m: int| 0 <= m < ms.len() implies {
                            let i = #[trigger] ms[m] as int;
                            &&& i < cluster.region_count
                            &&& assigned@[i]
                            &&& island_index(cluster, i) == k
                        } by {
                            assert(ms[m] as int != r);
                            assert(cluster.regions@[ms[m] as int] == c0.regions@[ms[m] as int]);
                        }
                    }
                }
                assert forall|i: int| 0 <= i < cluster.region_count && #[trigger] assigned@[i] implies region_in(cluster, i, MAX_ISLANDS as int) by {
                    if i == r {
                        assert(msl[ms0.len() as int] == r as u8);
                    } else {
                        assert(region_in(&c0, i, MAX_ISLANDS as int));
                        assert(cluster.regions@[i] == c0.regions@[i]);
                        let k = island_index(&c0, i);
                        if k != last {
                            assert(members_of(cluster, k) == members_of(&c0, k));
                        } else {
                            let m = choose|m: int| 0 <= m < ms0.len() && ms0[m] == i as u8;
                            assert(msl[m] == ms0[m]);
                        }
                    }
                }
                assert forall|k: int| 0 <= k < MAX_ISLANDS implies #[trigger] members_of(cluster, k).len() >= 1 && members_of(cluster, k)[0] == members_of(old(cluster), k)[0] by {
                    assert(members_of(&c0, k).len() >= 1);
                    if k != last {
                        assert(members_of(cluster, k) == members_of(&c0, k));
                    }
                }
                assert forall|i: int| 0 <= i < MAX_REGIONS && #[trigger] assigned@[i] && !old(assigned)@[i] implies boundary@.contains(i as usize) by {
                    if i == r {
                        assert(boundary@[j as int] == r);
                    }
                }
            }
        }
        j = j + 1;
    }
}

/// `b` is cluster `c` as it stood once its border regions were grouped:
/// the same regions, and each of the first `n` islands listing the border
/// members of its island in `c`, which come first there, the others after.
pub open spec fn border_stage(b: &Cluster, c: &Cluster, n: int) -> bool {
    &&& forall|j: int| 0 <= j < MAX_REGIONS ==> (#[trigger] b.regions@[j] is Some) == (c.regions@[j] is Some)
    &&& forall|j: int| 0 <= j < MAX_REGIONS ==> #[trigger] center_of(b, j) == center_of(c, j)
    &&& forall|k: int|
        0 <= k < n ==> {
            &&& (#[trigger] b.islands@[k]) is Some
            &&& c.islands@[k] is Some
            &&& b.islands@[k]->0.id == c.islands@[k]->0.id
            &&& members_of(b, k).len() <= members_of(c, k).len()
            &&& members_of(c, k).take(members_of(b, k).len() as int) == members_of(b, k)
            &&& forall|m: int| 0 <= m < members_of(b, k).len() ==> is_border(c, #[trigger] members_of(c, k)[m] as int)
            &&& forall|m: int|
                members_of(b, k).len() <= m < members_of(c, k).len() ==> !is_border(c, #[trigger] members_of(c, k)[m] as int)
        }
}

/// Every interior region of `c` records the island nearest to it among the
/// first `n` islands of `b`, as `nearest_island_spec` says.
pub open spec fn interiors_nearest(b: &Cluster, c: &Cluster, n: int) -> bool {
    forall|j: int|
        0 <= j < c.region_count && !is_border(c, j) ==> nearest_island_spec(b, #[trigger] center_of(c, j), n, c.regions@[j]->0.island)
}

/// One interior region appended to island `kk` keeps the border stage.
proof fn lemma_border_stage_push(b: &Cluster, c0: &Cluster, c: &Cluster, n: int, kk: int, ri: int)
    requires
        border_stage(b, c0, n),
        0 <= kk < n <= MAX_ISLANDS,
        forall|j: int| 0 <= j < MAX_REGIONS ==> (#[trigger] c.regions@[j] is Some) == (c0.regions@[j] is Some),
        forall|j: int| 0 <= j < MAX_REGIONS ==> #[trigger] center_of(c, j) == center_of(c0, j),
        forall|j: int| 0 <= j < MAX_REGIONS ==> #[trigger] is_border(c, j) == is_border(c0, j),
        forall|k: int| 0 <= k < MAX_ISLANDS && k != kk ==> #[trigger] c.islands@[k] == c0.islands@[k],
        c.islands@[kk] is Some,
        c.islands@[kk]->0.id == c0.islands@[kk]->0.id,
        members_of(c, kk) == members_of(c0, kk).push(ri as u8),
        0 <= ri < MAX_REGIONS,
        !is_border(c0, ri),
        forall|k: int, m: int| 0 <= k < n && 0 <= m < members_of(c0, k).len() ==> (#[trigger] members_of(c0, k)[m] as int) < MAX_REGIONS,
    ensures
        border_stage(b, c, n),
{
    assert forall|k: int| 0 <= k < n implies {
        &&& (#[trigger] b.islands@[k]) is Some
        &&& c.islands@[k] is Some
        &&& b.islands@[k]->0.id == c.islands@[k]->0.id
        &&& members_of(b, k).len() <= members_of(c, k).len()
        &&& members_of(c, k).take(members_of(b, k).len() as int) == members_of(b, k)
        &&& forall|m: int| 0 <= m < members_of(b, k).len() ==> is_border(c, #[trigger] members_of(c, k)[m] as int)
        &&& forall|m: int|
            members_of(b, k).len() <= m < members_of(c, k).len() ==> !is_border(c, #[trigger] members_of(c, k)[m] as int)
    } by {
        let ms0 = members_of(c0, k);
        let lb = members_of(b, k).len() as int;
        if k == kk {
            let ms = members_of(c, k);
            assert(ms.take(lb) =~= ms0.take(lb));
            assert forall|m: int| 0 <= m < lb implies is_border(c, #[trigger] ms[m] as int) by {
                assert(ms[m] == ms0[m]);
                assert(is_border(c0, ms0[m] as int));
            }
            assert forall|m: int| lb <= m < ms.len() implies !is_border(c, #[trigger] ms[m] as int) by {
                if m < ms0.len() {
                    assert(ms[m] == ms0[m]);
                    assert(!is_border(c0, ms0[m] as int));
                } else {
                    assert(ms[m] == ri as u8);
                }
            }
        } else {
            assert(c.islands@[k] == c0.islands@[k]);
            assert(members_of(c, k) == ms0);
            assert forall|m: int| 0 <= m < lb implies is_border(c, #[trigger] ms0[m] as int) by {
                assert(is_border(c0, ms0[m] as int));
            }
            assert forall|m: int| lb <= m < ms0.len() implies !is_border(c, #[trigger] ms0[m] as int) by {
                assert(!is_border(c0, ms0[m] as int));
            }
        }
    }
}

/// The border regions of cluster `c`.
pub open spec fn border_set(c: &Cluster) -> Set<int> {
    Set::new(|i: int| 0 <= i < c.region_count && is_border(c, i))
}

/// Islands that each start at a distinct border region are no more than
/// the border regions.
proof fn lemma_islands_at_most_border(c: &Cluster, o: &Cluster)
    requires
        islands_partition(c),
        c.region_count == o.region_count,
        forall|j: int| 0 <= j < c.region_count ==> #[trigger] is_border(c, j) == is_border(o, j),
        forall|k: int| 0 <= k < c.island_count ==> is_border(c, #[trigger] members_of(c, k)[0] as int),
    ensures
        border_set(o).finite(),
        c.island_count <= border_set(o).len(),
{
    let n = c.island_count as int;
    let x = vstd::set_lib::set_int_range(0, n);
    let f = |k: int| members_of(c, k)[0] as int;
    let y = x.map(f);
    let b = border_set(o);
    vstd::set_lib::lemma_int_range(0, n);
    vstd::set_lib::lemma_int_range(0, c.region_count as int);
    assert(vstd::relations::injective_on(f, x)) by {
        assert forall|k1: int, k2: int| x.contains(k1) && x.contains(k2) && #[trigger] f(k1) == #[trigger] f(k2) implies k1 == k2 by {
            assert(island_ok(c, k1, all_assigned()));
            assert(island_ok(c, k2, all_assigned()));
            assert(members_of(c, k1)[0] == members_of(c, k2)[0]);
        }
    }
    vstd::set_lib::lemma_map_size(x, y, f);
    assert(b.subset_of(vstd::set_lib::set_int_range(0, c.region_count as int)));
    vstd::set_lib::lemma_len_subset(b, vstd::set_lib::set_int_range(0, c.region_count as int));
    assert forall|r: int| y.contains(r) implies b.contains(r) by {
        let k = choose|k: int| x.contains(k) && f(k) == r;
        assert(island_ok(c, k, all_assigned()));
        assert(is_border(c, members_of(c, k)[0] as int));
    }
    vstd::set_lib::lemma_len_subset(y, b);
}

/// Groups the regions of a cluster into islands (see `islands_partition`):
/// border regions are flood-filled into islands through chains of
/// well-connected border regions (surplus ones joining the last island once
/// every slot is taken); every other region joins the island of the nearest
/// border region, measured against the border islands alone (see
/// `border_stage`, `interiors_nearest`), so there are no more islands than
/// border regions; a border region well connected to another border region
/// never lies in an earlier island than it, so two border regions well
/// connected both ways share their island; with no border region, all
/// regions form island 0, region 0 first.
pub fn identify_islands(cluster: &mut Cluster)
    requires
        regions_dense(old(cluster)),
    ensures
        regions_kept(final(cluster), old(cluster)),
        regions_dense(final(cluster)),
        islands_partition(final(cluster)),
        (exists|i: int| 0 <= i < old(cluster).region_count && #[trigger] is_border(old(cluster), i)) ==> forall|k: int|
            0 <= k < final(cluster).island_count ==> is_border(
                final(cluster),
                #[trigger] members_of(final(cluster), k)[0] as int,
            ),
        (forall|i: int| 0 <= i < old(cluster).region_count ==> !#[trigger] is_border(old(cluster), i))
            && old(cluster).region_count > 0 ==> {
            &&& final(cluster).island_count == 1
            &&& members_of(final(cluster), 0)[0] == 0
            &&& final(cluster).islands@[0]->0.representative == center_of(final(cluster), 0)
            &&& forall|j: int| 0 <= j < final(cluster).region_count ==> #[trigger] island_index(final(cluster), j) == 0
        },
        (exists|i: int| 0 <= i < old(cluster).region_count && #[trigger] is_border(old(cluster), i)) ==> final(cluster).island_count
            <= border_set(old(cluster)).len(),
        forall|i: int, j: int|
            0 <= i < old(cluster).region_count && 0 <= j < old(cluster).region_count && is_border(old(cluster), i) && is_border(
                old(cluster),
                j,
            ) && #[trigger] well_connected(old(cluster), i, j) ==> island_index(final(cluster), j) <= island_index(final(cluster), i),
        forall|i: int, j: int|
            0 <= i < old(cluster).region_count && 0 <= j < old(cluster).region_count && is_border(old(cluster), i) && is_border(
                old(cluster),
                j,
            ) && #[trigger] well_connected(old(cluster), i, j) && well_connected(old(cluster), j, i) ==> island_index(final(cluster), i)
                == island_index(final(cluster), j),
        (exists|i: int| 0 <= i < old(cluster).region_count && #[trigger] is_border(old(cluster), i)) ==> exists|b: Cluster|
            #[trigger] border_stage(&b, final(cluster), final(cluster).island_count as int) && interiors_nearest(
                &b,
                final(cluster),
                final(cluster).island_count as int,
            ),
{
    let count = cluster.region_count;
    if count == 0 {
        cluster.island_count = 0;
        proof {
            lemma_dense_kept(cluster, old(cluster));
        }
        return;
    }
    let mut assigned: Vec<bool> = Vec::new();
    let mut k: usize = 0;
    while k < MAX_REGIONS
        invariant
            k <= MAX_REGIONS,
            assigned@.len() == k,
            forall|j: int| 0 <= j < k ==> !(#[trigger] assigned@[j]),
        decreases MAX_REGIONS - k,
    {
        assigned.push(false);
        k = k + 1;
    }
    let boundary = collect_boundary(cluster);
    if boundary.len() == 0 {
        proof {
            assert forall|i: int| 0 <= i < old(cluster).region_count implies !#[trigger] is_border(old(cluster), i) by {
                if is_border(old(cluster), i) {
                    assert(boundary@.contains(i as usize));
                }
            }
        }
        single_island(cluster);
        return;
    }
    let mut island_count: usize = 0;
    let mut b: usize = 0;
    proof {
        assert(islands_so_far(cluster, assigned@, 0));
    }
    while b < boundary.len()
        invariant
            regions_dense(old(cluster)),
            boundary_list_ok(old(cluster), boundary@),
            boundary@.len() > 0,
            regions_kept(cluster, old(cluster)),
            regions_dense(cluster),
            cluster.island_count == old(cluster).island_count,
            count == cluster.region_count,
            island_count <= MAX_ISLANDS,
            islands_so_far(cluster, assigned@, island_count as int),
            b <= boundary@.len(),
            b > 0 ==> island_count >= 1,
            forall|q: int| 0 <= q < b ==> #[trigger] assigned@[boundary@[q] as int],
            forall|i: int| 0 <= i < MAX_REGIONS && #[trigger] assigned@[i] ==> boundary@.contains(i as usize),
            forall|k: int| 0 <= k < island_count ==> is_border(cluster, #[trigger] members_of(cluster, k)[0] as int),
            forall|k: int, m: int, t: int|
                0 <= k < island_count && 0 <= m < members_of(cluster, k).len() && 0 <= t < boundary@.len()
                    && #[trigger] well_connected(old(cluster), members_of(cluster, k)[m] as int, boundary@[t] as int) ==> assigned@[boundary@[t] as int]
                    && island_index(cluster, boundary@[t] as int) <= k,
        ensures
            regions_kept(cluster, old(cluster)),
            regions_dense(cluster),
            cluster.island_count == old(cluster).island_count,
            count == cluster.region_count,
            1 <= island_count <= MAX_ISLANDS,
            islands_so_far(cluster, assigned@, island_count as int),
            forall|k: int| 0 <= k < island_count ==> is_border(cluster, #[trigger] members_of(cluster, k)[0] as int),
            boundary_list_ok(old(cluster), boundary@),
            forall|q: int| 0 <= q < boundary@.len() ==> #[trigger] assigned@[boundary@[q] as int],
            forall|i: int| 0 <= i < MAX_REGIONS && #[trigger] assigned@[i] ==> boundary@.contains(i as usize),
            forall|k: int, m: int, t: int|
                0 <= k < island_count && 0 <= m < members_of(cluster, k).len() && 0 <= t < boundary@.len()
                    && #[trigger] well_connected(old(cluster), members_of(cluster, k)[m] as int, boundary@[t] as int) ==> assigned@[boundary@[t] as int]
                    && island_index(cluster, boundary@[t] as int) <= k,
        decreases boundary@.len() - b,
    {
        let seed = boundary[b];
        if assigned[seed] {
            b = b + 1;
            continue;
        }
        if island_count >= MAX_ISLANDS {
            let ghost c0 = *cluster;
            let ghost a_merge = assigned@;
            merge_remaining(cluster, &mut assigned, &boundary);
            proof {
                lemma_regions_kept_trans(cluster, &c0, old(cluster));
                lemma_dense_kept(cluster, old(cluster));
                lemma_dense_kept(&c0, old(cluster));
                assert forall|k: int| 0 <= k < island_count implies is_border(cluster, #[trigger] members_of(cluster, k)[0] as int) by {
                    assert(members_of(cluster, k).len() >= 1);
                    assert(members_of(cluster, k)[0] == members_of(&c0, k)[0]);
                    assert(is_border(&c0, members_of(&c0, k)[0] as int));
                    let x = members_of(&c0, k)[0] as int;
                    assert(island_ok(cluster, k, assigned@));
                    assert(x < cluster.region_count);
                }
            }
            proof {
                assert forall|q: int| 0 <= q < boundary@.len() implies #[trigger] assigned@[boundary@[q] as int] by {}
                assert forall|k: int, m: int, t: int|
                    0 <= k < island_count && 0 <= m < members_of(cluster, k).len() && 0 <= t < boundary@.len()
                        && #[trigger] well_connected(old(cluster), members_of(cluster, k)[m] as int, boundary@[t] as int) implies assigned@[boundary@[t] as int]
                        && island_index(cluster, boundary@[t] as int) <= k by {
                    let bt = boundary@[t] as int;
                    assert(assigned@[bt]);
                    assert(bt < cluster.region_count);
                    assert(region_in(cluster, bt, MAX_ISLANDS as int));
                    if k < MAX_ISLANDS - 1 {
                        assert(cluster.islands@[k] == c0.islands@[k]);
                        assert(members_of(cluster, k) == members_of(&c0, k));
                        assert(a_merge[bt]);
                        assert(cluster.regions@[bt] == c0.regions@[bt]);
                    }
                }
            }
            b = boundary.len();
            break;
        }
        let ghost c0 = *cluster;
        let ghost a_before = assigned@;
        proof {
            assert(boundary@.contains(seed)) by {
                assert(boundary@[b as int] == seed);
            }
        }
        flood_island(cluster, &mut assigned, &boundary, seed, island_count);
        proof {
            assert forall|q: int| 0 <= q < b + 1 implies #[trigger] assigned@[boundary@[q] as int] by {
                if q < b {
                    assert(a_before[boundary@[q] as int]);
                }
            }
        }
        proof {
            lemma_regions_kept_trans(cluster, &c0, old(cluster));
            lemma_dense_kept(cluster, old(cluster));
            lemma_dense_kept(&c0, old(cluster));
            assert forall|k: int| 0 <= k < island_count + 1 implies is_border(cluster, #[trigger] members_of(cluster, k)[0] as int) by {
                assert(island_ok(cluster, k, assigned@));
                if k < island_count {
                    assert(cluster.islands@[k] == c0.islands@[k]);
                    assert(members_of(cluster, k) == members_of(&c0, k));
                    assert(is_border(&c0, members_of(&c0, k)[0] as int));
                } else {
                    assert(members_of(cluster, k)[0] == seed);
                }
            }
        }
        proof {
            lemma_dense_kept(&c0, old(cluster));
            lemma_wc_same(&c0, old(cluster));
            assert forall|k: int, m: int, t: int|
                0 <= k < island_count + 1 && 0 <= m < members_of(cluster, k).len() && 0 <= t < boundary@.len()
                    && #[trigger] well_connected(old(cluster), members_of(cluster, k)[m] as int, boundary@[t] as int) implies assigned@[boundary@[t] as int]
                    && island_index(cluster, boundary@[t] as int) <= k by {
                let bt = boundary@[t] as int;
                assert(bt < cluster.region_count);
                if k < island_count {
                    assert(cluster.islands@[k] == c0.islands@[k]);
                    assert(members_of(cluster, k) == members_of(&c0, k));
                    assert(well_connected(old(cluster), members_of(&c0, k)[m] as int, bt));
                    assert(a_before[bt]);
                    assert(region_in(&c0, bt, island_count as int));
                    let idx = island_index(&c0, bt);
                    assert(cluster.islands@[idx] == c0.islands@[idx]);
                    assert(members_of(cluster, idx) == members_of(&c0, idx));
                    assert(island_ok(cluster, idx, assigned@));
                    let mm = choose|mm: int| 0 <= mm < members_of(&c0, idx).len() && members_of(&c0, idx)[mm] == bt as u8;
                    assert(members_of(cluster, idx)[mm] as int == bt);
                } else {
                    let ms = members_of(cluster, k);
                    assert(island_ok(cluster, k, assigned@));
                    assert((ms[m] as int) < MAX_REGIONS);
                    assert(well_connected(&c0, ms[m] as int, bt) == well_connected(old(cluster), ms[m] as int, bt));
                    assert(assigned@[bt]);
                    assert(region_in(cluster, bt, island_count + 1));
                }
            }
        }
        island_count = island_count + 1;
        b = b + 1;
    }
    // Interior regions: each joins the island of the nearest border region,
    // all measured against the border islands alone.
    let ghost c_b = *cluster;
    proof {
        lemma_dense_kept(cluster, old(cluster));
        assert forall|k: int| 0 <= k < island_count implies {
            &&& (#[trigger] c_b.islands@[k]) is Some
            &&& forall|m: int| 0 <= m < members_of(&c_b, k).len() ==> is_border(&c_b, #[trigger] members_of(&c_b, k)[m] as int)
        } by {
            assert(island_ok(cluster, k, assigned@));
            assert forall|m: int| 0 <= m < members_of(&c_b, k).len() implies is_border(&c_b, #[trigger] members_of(&c_b, k)[m] as int) by {
                let x = members_of(&c_b, k)[m] as int;
                assert(assigned@[x]);
                assert(boundary@.contains(x as usize));
                let t = choose|t: int| 0 <= t < boundary@.len() && boundary@[t] == x as usize;
                assert(is_border(old(cluster), boundary@[t] as int));
            }
        }
        assert forall|k: int| 0 <= k < island_count implies members_of(&c_b, k).take(members_of(&c_b, k).len() as int) == members_of(&c_b, k) by {
            assert(members_of(&c_b, k).take(members_of(&c_b, k).len() as int) =~= members_of(&c_b, k));
        }
        assert(border_stage(&c_b, &c_b, island_count as int));
    }
    let mut interior: Vec<(usize, IslandId)> = Vec::new();
    let mut i: usize = 0;
    while i < count
        invariant
            *cluster == c_b,
            forall|q: int| 0 <= q < interior@.len() ==> nearest_island_spec(&c_b, center_of(&c_b, (#[trigger] interior@[q]).0 as int), island_count as int, interior@[q].1),
            regions_dense(cluster),
            count == cluster.region_count,
            1 <= island_count <= MAX_ISLANDS,
            islands_so_far(cluster, assigned@, island_count as int),
            i <= count,
            forall|q: int| 0 <= q < interior@.len() ==> (#[trigger] interior@[q]).0 < i && !assigned@[interior@[q].0 as int]
                && (interior@[q].1.0 as int) < island_count,
            forall|q1: int, q2: int| 0 <= q1 < q2 < interior@.len() ==> (#[trigger] interior@[q1]).0 < (#[trigger] interior@[q2]).0,
            forall|j: int| 0 <= j < i && !(#[trigger] assigned@[j]) ==> exists|q: int| 0 <= q < interior@.len() && interior@[q].0 == j,
        decreases count - i,
    {
        if !assigned[i] {
            let nearest = find_nearest_island(cluster, i, island_count);
            proof {
                if nearest != IslandId(0) {
                    let (k0, m0) = choose|k0: int, m0: int|
                        #![trigger member_dist(cluster, center_of(cluster, i as int), k0, m0)]
                        0 <= k0 < island_count && member_dist(cluster, center_of(cluster, i as int), k0, m0) is Some && member_dist(cluster, center_of(cluster, i as int), k0, m0)->0 < FAR_SQUARED_BITS
                            && nearest == cluster.islands@[k0]->0.id && (forall|k: int, m: int|
                            0 <= k < island_count && pair_lt(k, m, k0, m0) ==> #[trigger] dist_gt(cluster, center_of(cluster, i as int), k, m, member_dist(cluster, center_of(cluster, i as int), k0, m0)->0))
                            && (forall|k: int, m: int| 0 <= k < island_count ==> #[trigger] dist_ge(cluster, center_of(cluster, i as int), k, m, member_dist(cluster, center_of(cluster, i as int), k0, m0)->0));
                    assert(island_ok(cluster, k0, assigned@));
                }
            }
            let ghost before = interior@;
            interior.push((i, nearest));
            proof {
                assert forall|j: int| 0 <= j < i + 1 && !(#[trigger] assigned@[j]) implies exists|q: int| 0 <= q < interior@.len() && interior@[q].0 == j by {
                    if j == i {
                        assert(interior@[before.len() as int].0 == j);
                    } else {
                        let q = choose|q: int| 0 <= q < before.len() && before[q].0 == j;
                        assert(interior@[q] == before[q]);
                    }
                }
                assert forall|q: int| 0 <= q < interior@.len() implies (#[trigger] interior@[q]).0 < i + 1 && !assigned@[interior@[q].0 as int]
                    && (interior@[q].1.0 as int) < island_count by {
                    if q < before.len() {
                        assert(interior@[q] == before[q]);
                    }
                }
                assert forall|q1: int, q2: int| 0 <= q1 < q2 < interior@.len() implies (#[trigger] interior@[q1]).0 < (#[trigger] interior@[q2]).0 by {
                    assert(interior@[q1] == before[q1]);
                    if q2 < before.len() {
                        assert(interior@[q2] == before[q2]);
                    }
                }
            }
        }
        i = i + 1;
    }
    let ghost base = assigned@;
    let ghost mut done: Seq<bool> = assigned@;
    proof {
        assert forall|j: int| 0 <= j < count && #[trigger] is_border(old(cluster), j) implies base[j] by {
            assert(boundary@.contains(j as usize));
            let t = choose|t: int| 0 <= t < boundary@.len() && boundary@[t] == j as usize;
            assert(assigned@[boundary@[t] as int]);
        }
        assert forall|j: int| 0 <= j < count && !(#[trigger] base[j]) implies !is_border(&c_b, j) by {
            if is_border(&c_b, j) {
                assert(is_border(old(cluster), j));
            }
        }
        assert forall|k: int| 0 <= k < island_count implies #[trigger] members_of(cluster, k).len() >= 1 && is_border(cluster, members_of(cluster, k)[0] as int) by {
            assert(island_ok(cluster, k, assigned@));
        }
    }
    let mut q: usize = 0;
    while q < interior.len()
        invariant
            regions_dense(old(cluster)),
            regions_kept(cluster, old(cluster)),
            regions_dense(cluster),
            cluster.island_count == old(cluster).island_count,
            count == cluster.region_count,
            1 <= island_count <= MAX_ISLANDS,
            done.len() == MAX_REGIONS,
            islands_so_far(cluster, done, island_count as int),
            q <= interior@.len(),
            forall|j: int| 0 <= j < MAX_REGIONS && #[trigger] base[j] ==> done[j],
            forall|r: int| 0 <= r < interior@.len() ==> (#[trigger] interior@[r]).0 < count && !base[interior@[r].0 as int]
                && (interior@[r].1.0 as int) < island_count,
            forall|r1: int, r2: int| 0 <= r1 < r2 < interior@.len() ==> (#[trigger] interior@[r1]).0 < (#[trigger] interior@[r2]).0,
            forall|r: int| 0 <= r < interior@.len() ==> (done[(#[trigger] interior@[r]).0 as int] <==> r < q),
            forall|j: int| 0 <= j < count && !(#[trigger] base[j]) ==> exists|r: int| 0 <= r < interior@.len() && interior@[r].0 == j,
            forall|j: int| 0 <= j < MAX_REGIONS && #[trigger] done[j] && !base[j] ==> exists|r: int| 0 <= r < interior@.len() && interior@[r].0 == j,
            forall|k: int| 0 <= k < island_count ==> #[trigger] members_of(cluster, k).len() >= 1 && is_border(cluster, members_of(cluster, k)[0] as int),
            border_stage(&c_b, cluster, island_count as int),
            forall|j: int| 0 <= j < count && !(#[trigger] base[j]) ==> !is_border(&c_b, j),
            forall|j: int| 0 <= j < MAX_REGIONS ==> #[trigger] center_of(&c_b, j) == center_of(old(cluster), j),
            forall|j: int| 0 <= j < count ==> #[trigger] is_border(&c_b, j) == is_border(old(cluster), j),
            forall|r: int| 0 <= r < q ==> cluster.regions@[(#[trigger] interior@[r]).0 as int]->0.island == interior@[r].1,
            forall|x: int| 0 <= x < MAX_REGIONS && #[trigger] base[x] ==> cluster.regions@[x] == c_b.regions@[x],
            forall|r: int| 0 <= r < interior@.len() ==> nearest_island_spec(&c_b, center_of(&c_b, (#[trigger] interior@[r]).0 as int), island_count as int, interior@[r].1),
        decreases interior@.len() - q,
    {
        let (ri, id) = interior[q];
        let ghost c0 = *cluster;
        let ghost d0 = done;
        proof {
            assert(!done[ri as int]);
            let k = id.0 as int;
            assert(island_ok(cluster, k, done));
            let ms = members_of(cluster, k);
            assert forall|m: int| 0 <= m < ms.len() implies (#[trigger] ms[m] as int) < MAX_REGIONS && ms[m] as int != ri by {
                assert(done[ms[m] as int]);
            }
            lemma_members_bound(ms, MAX_REGIONS as int, ri as int);
        }
        set_region_island(cluster, ri, id);
        let ghost c1 = *cluster;
        push_island_member(cluster, id.0 as usize, ri as u8);
        proof {
            lemma_regions_kept_trans(&c1, &c0, old(cluster));
            lemma_regions_kept_trans(cluster, &c1, old(cluster));
            lemma_dense_kept(cluster, old(cluster));
            lemma_dense_kept(&c0, old(cluster));
            done = d0.update(ri as int, true);
            let kk = id.0 as int;
            let ms0 = members_of(&c0, kk);
            let msk = members_of(cluster, kk);
            assert(msk == ms0.push(ri as u8));
            assert forall|j: int| 0 <= j < MAX_REGIONS implies #[trigger] is_border(cluster, j) == is_border(&c0, j) by {
                if j != ri {
                    assert(cluster.regions@[j] == c0.regions@[j]);
                }
            }
            assert(!is_border(&c0, ri as int)) by {
                assert(!base[ri as int]);
                assert(!is_border(&c_b, ri as int));
                assert(is_border(&c0, ri as int) == is_border(old(cluster), ri as int));
            }
            assert forall|k: int, m: int| 0 <= k < island_count && 0 <= m < members_of(&c0, k).len() implies (#[trigger] members_of(&c0, k)[m] as int) < MAX_REGIONS by {
                assert(island_ok(&c0, k, d0));
            }
            lemma_border_stage_push(&c_b, &c0, cluster, island_count as int, kk, ri as int);
            assert forall|x: int| 0 <= x < MAX_REGIONS && #[trigger] base[x] implies cluster.regions@[x] == c_b.regions@[x] by {
                assert(x != ri);
                assert(cluster.regions@[x] == c0.regions@[x]);
            }
            assert forall|r: int| 0 <= r < q + 1 implies cluster.regions@[(#[trigger] interior@[r]).0 as int]->0.island == interior@[r].1 by {
                if r < q {
                    assert(interior@[r].0 < interior@[q as int].0);
                    assert(cluster.regions@[interior@[r].0 as int] == c0.regions@[interior@[r].0 as int]);
                }
            }
            assert(!ms0.contains(ri as u8)) by {
                if ms0.contains(ri as u8) {
                    let m = choose|m: int| 0 <= m < ms0.len() && ms0[m] == ri as u8;
                    assert(island_ok(&c0, kk, d0));
                    assert(d0[ms0[m] as int]);
                }
            }
            assert forall|k: int| 0 <= k < island_count implies #[trigger] island_ok(cluster, k, done) by {
                assert(island_ok(&c0, k, d0));
                let ms = members_of(&c0, k);
                assert(!ms.contains(ri as u8)) by {
                    if ms.contains(ri as u8) {
                        let m = choose|m: int| 0 <= m < ms.len() && ms[m] == ri as u8;
                        assert(d0[ms[m] as int]);
                    }
                }
                if k == kk {
                    assert(msk.no_duplicates()) by {
                        assert forall|x: int, y: int| 0 <= x < msk.len() && 0 <= y < msk.len() && x != y implies msk[x] != msk[y] by {
                            if x == ms0.len() {
                                assert(msk[y] == ms0[y]);
                            } else if y == ms0.len() {
                                assert(msk[x] == ms0[x]);
                            }
                        }
                    }
                    assert(msk[0] == ms0[0]);
                    assert forall|m: int| 0 <= m < msk.len() implies {
                        let i = #[trigger] msk[m] as int;
                        &&& i < cluster.region_count
                        &&& done[i]
                        &&& island_index(cluster, i) == k
                    } by {
                        if m < ms0.len() {
                            assert(msk[m] == ms0[m]);
                            assert(cluster.regions@[ms0[m] as int] == c0.regions@[ms0[m] as int]);
                        }
                    }
                } else {
                    assert(members_of(cluster, k) == ms);
                    assert forall|m: int| 0 <= m < ms.len() implies {
                        let i = #[trigger] ms[m] as int;
                        &&& i < cluster.region_count
                        &&& done[i]
                        &&& island_index(cluster, i) == k
                    } by {
                        assert(cluster.regions@[ms[m] as int] == c0.regions@[ms[m] as int]);
                    }
                }
            }
            assert forall|i: int| 0 <= i < cluster.region_count && #[trigger] done[i] implies region_in(cluster, i, island_count as int) by {
                if i == ri {
                    assert(msk[ms0.len() as int] == ri as u8);
                } else {
                    assert(region_in(&c0, i, island_count as int));
                    assert(cluster.regions@[i] == c0.regions@[i]);
                    let k = island_index(&c0, i);
                    if k != kk {
                        assert(members_of(cluster, k) == members_of(&c0, k));
                    } else {
                        let m = choose|m: int| 0 <= m < ms0.len() && ms0[m] == i as u8;
                        assert(msk[m] == ms0[m]);
                    }
                }
            }
            assert forall|r: int| 0 <= r < interior@.len() implies (done[(#[trigger] interior@[r]).0 as int] <==> r < q + 1) by {
                if r != q {
                    if interior@[r].0 == ri {
                        if r < q {
                            assert(interior@[r].0 < interior@[q as int].0);
                        } else {
                            assert(interior@[q as int].0 < interior@[r].0);
                        }
                    }
                }
            }
            assert forall|j: int| 0 <= j < MAX_REGIONS && #[trigger] done[j] && !base[j] implies exists|r: int| 0 <= r < interior@.len() && interior@[r].0 == j by {
                if j == ri {
                    assert(interior@[q as int].0 == j);
                }
            }
            assert forall|k: int| 0 <= k < island_count implies #[trigger] members_of(cluster, k).len() >= 1 && is_border(cluster, members_of(cluster, k)[0] as int) by {
                assert(members_of(&c0, k).len() >= 1);
                assert(is_border(&c0, members_of(&c0, k)[0] as int));
                assert(island_ok(&c0, k, d0));
                assert((members_of(&c0, k)[0] as int) < count);
                if k == kk {
                    assert(members_of(cluster, k)[0] == members_of(&c0, k)[0]);
                } else {
                    assert(members_of(cluster, k) == members_of(&c0, k));
                }
            }
        }
        q = q + 1;
    }
    let ghost c_pre = *cluster;
    cluster.island_count = island_count;
    proof {
        lemma_dense_kept(cluster, old(cluster));
        assert forall|k: int| 0 <= k < island_count implies #[trigger] island_ok(cluster, k, done) by {
            assert(island_ok(&c_pre, k, done));
            assert(members_of(cluster, k) == members_of(&c_pre, k));
            assert forall|m: int| 0 <= m < members_of(cluster, k).len() implies {
                let i = #[trigger] members_of(cluster, k)[m] as int;
                &&& i < cluster.region_count
                &&& done[i]
                &&& island_index(cluster, i) == k
            } by {
                assert(members_of(cluster, k)[m] == members_of(&c_pre, k)[m]);
            }
        }
        assert forall|i: int| 0 <= i < cluster.region_count && #[trigger] done[i] implies region_in(cluster, i, island_count as int) by {
            assert(region_in(&c_pre, i, island_count as int));
        }
        assert forall|k: int| 0 <= k < cluster.island_count implies is_border(cluster, #[trigger] members_of(cluster, k)[0] as int) by {
            assert(members_of(&c_pre, k).len() >= 1 && is_border(&c_pre, members_of(&c_pre, k)[0] as int));
            assert(members_of(cluster, k) == members_of(&c_pre, k));
        }
        assert(is_border(old(cluster), boundary@[0] as int));
        assert(boundary@[0] < old(cluster).region_count);
        assert forall|j: int| 0 <= j < MAX_REGIONS && j < count implies #[trigger] done[j] by {
            if !base[j] {
                let r = choose|r: int| 0 <= r < interior@.len() && interior@[r].0 == j;
            }
        }
        assert forall|k: int| 0 <= k < cluster.island_count implies #[trigger] island_ok(cluster, k, all_assigned()) by {
            assert(island_ok(cluster, k, done));
            assert forall|m: int| 0 <= m < members_of(cluster, k).len() implies {
                let i = #[trigger] members_of(cluster, k)[m] as int;
                &&& i < cluster.region_count
                &&& all_assigned()[i]
                &&& island_index(cluster, i) == k
            } by {}
        }
        assert forall|i: int| 0 <= i < cluster.region_count implies #[trigger] region_listed(cluster, i) by {
            assert(done[i]);
            assert(region_in(cluster, i, island_count as int));
        }
        assert(islands_partition(cluster));
        assert(cluster.regions@ == c_pre.regions@);
        assert forall|k: int| 0 <= k < island_count implies #[trigger] members_of(cluster, k) == members_of(&c_pre, k) by {}
        assert(border_stage(&c_b, cluster, island_count as int));
        assert forall|j: int| 0 <= j < cluster.region_count && !is_border(cluster, j) implies nearest_island_spec(&c_b, #[trigger] center_of(cluster, j), island_count as int, cluster.regions@[j]->0.island) by {
            assert(is_border(cluster, j) == is_border(old(cluster), j));
            assert(is_border(&c_b, j) == is_border(old(cluster), j));
            if base[j] {
                assert(is_border(old(cluster), j)) by {
                    assert(boundary@.contains(j as usize));
                    let t = choose|t: int| 0 <= t < boundary@.len() && boundary@[t] == j as usize;
                }
            }
            let r = choose|r: int| 0 <= r < interior@.len() && interior@[r].0 == j;
            assert(cluster.regions@[interior@[r].0 as int]->0.island == interior@[r].1);
            assert(center_of(&c_b, j) == center_of(cluster, j));
        }
        assert(interiors_nearest(&c_b, cluster, island_count as int));
        lemma_islands_at_most_border(cluster, old(cluster));
        assert forall|i: int, j: int|
            0 <= i < old(cluster).region_count && 0 <= j < old(cluster).region_count && is_border(old(cluster), i) && is_border(
                old(cluster),
                j,
            ) && #[trigger] well_connected(old(cluster), i, j) implies island_index(cluster, j) <= island_index(cluster, i) by {
            assert(base[i] && base[j]);
            assert(boundary@.contains(j as usize));
            let t = choose|t: int| 0 <= t < boundary@.len() && boundary@[t] == j as usize;
            assert(region_in(&c_b, i, island_count as int));
            let k = island_index(&c_b, i);
            let m = choose|m: int| 0 <= m < members_of(&c_b, k).len() && members_of(&c_b, k)[m] == i as u8;
            assert(well_connected(old(cluster), members_of(&c_b, k)[m] as int, boundary@[t] as int));
            assert(island_index(&c_b, j) <= k);
            assert(cluster.regions@[i] == c_pre.regions@[i]);
            assert(cluster.regions@[j] == c_pre.regions@[j]);
        }
    }
}

} // verus!
