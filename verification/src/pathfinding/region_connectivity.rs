//! Portals between the regions of one cluster, and the cluster's local
//! routing table.
use vstd::prelude::*;
use crate::fixed::{FixedNum, FixedVec2, coord_ok};
use crate::pathfinding::types::{Region, RegionId, RegionPortal, LineSegment, mid_bits, abs_int, MAX_REGIONS, NO_PATH};
use crate::pathfinding::cluster::{Cluster, route_in};

verus! {

/// Two coordinates closer than this (0.1, the nearest fixed-point value) count as equal.
pub const EPSILON_BITS: i64 = 6554;

/// Whether two coordinates, given by their bits, are within `EPSILON_BITS` of each other.
pub open spec fn near(a: int, b: int) -> bool {
    -EPSILON_BITS < a - b < EPSILON_BITS
}

pub open spec fn min_int(a: int, b: int) -> int {
    if a <= b { a } else { b }
}

pub open spec fn max_int(a: int, b: int) -> int {
    if a <= b { b } else { a }
}

/// The common part of segments `a1a2` and `b1b2` when both are horizontal
/// (or both vertical) on the same line and overlap with positive length;
/// the shared line is the one through `a1`.
pub open spec fn overlap_spec(a1: FixedVec2, a2: FixedVec2, b1: FixedVec2, b2: FixedVec2) -> Option<LineSegment> {
    let a_h = near(a1.y.bits as int, a2.y.bits as int);
    let a_v = near(a1.x.bits as int, a2.x.bits as int);
    let b_h = near(b1.y.bits as int, b2.y.bits as int);
    let b_v = near(b1.x.bits as int, b2.x.bits as int);
    if a_h && b_h {
        let lo = max_int(min_int(a1.x.bits as int, a2.x.bits as int), min_int(b1.x.bits as int, b2.x.bits as int));
        let hi = min_int(max_int(a1.x.bits as int, a2.x.bits as int), max_int(b1.x.bits as int, b2.x.bits as int));
        if near(a1.y.bits as int, b1.y.bits as int) && hi > lo {
            Some(LineSegment {
                start: FixedVec2 { x: FixedNum { bits: lo as i64 }, y: a1.y },
                end: FixedVec2 { x: FixedNum { bits: hi as i64 }, y: a1.y },
            })
        } else {
            None
        }
    } else if a_v && b_v {
        let lo = max_int(min_int(a1.y.bits as int, a2.y.bits as int), min_int(b1.y.bits as int, b2.y.bits as int));
        let hi = min_int(max_int(a1.y.bits as int, a2.y.bits as int), max_int(b1.y.bits as int, b2.y.bits as int));
        if near(a1.x.bits as int, b1.x.bits as int) && hi > lo {
            Some(LineSegment {
                start: FixedVec2 { x: a1.x, y: FixedNum { bits: lo as i64 } },
                end: FixedVec2 { x: a1.x, y: FixedNum { bits: hi as i64 } },
            })
        } else {
            None
        }
    } else {
        None
    }
}

fn near_exec(a: FixedNum, b: FixedNum) -> (r: bool)
    requires
        coord_ok(a.bits as int),
        coord_ok(b.bits as int),
    ensures
        r == near(a.bits as int, b.bits as int),
{
    let d = a.bits - b.bits;
    -EPSILON_BITS < d && d < EPSILON_BITS
}

fn min_fixed(a: FixedNum, b: FixedNum) -> (r: FixedNum)
    ensures
        r.bits == min_int(a.bits as int, b.bits as int),
{
    if a.bits <= b.bits { a } else { b }
}

fn max_fixed(a: FixedNum, b: FixedNum) -> (r: FixedNum)
    ensures
        r.bits == max_int(a.bits as int, b.bits as int),
{
    if a.bits <= b.bits { b } else { a }
}

/// The overlap of two collinear axis-aligned segments (see `overlap_spec`).
pub fn compute_segment_overlap(a1: FixedVec2, a2: FixedVec2, b1: FixedVec2, b2: FixedVec2) -> (r: Option<LineSegment>)
    requires
        a1.in_range(),
        a2.in_range(),
        b1.in_range(),
        b2.in_range(),
    ensures
        r == overlap_spec(a1, a2, b1, b2),
{
    let a_h = near_exec(a1.y, a2.y);
    let a_v = near_exec(a1.x, a2.x);
    let b_h = near_exec(b1.y, b2.y);
    let b_v = near_exec(b1.x, b2.x);
    if a_h && b_h {
        if near_exec(a1.y, b1.y) {
            let lo = max_fixed(min_fixed(a1.x, a2.x), min_fixed(b1.x, b2.x));
            let hi = min_fixed(max_fixed(a1.x, a2.x), max_fixed(b1.x, b2.x));
            if hi.bits > lo.bits {
                return Some(LineSegment { start: FixedVec2::new(lo, a1.y), end: FixedVec2::new(hi, a1.y) });
            }
        }
        None
    } else if a_v && b_v {
        if near_exec(a1.x, b1.x) {
            let lo = max_fixed(min_fixed(a1.y, a2.y), min_fixed(b1.y, b2.y));
            let hi = min_fixed(max_fixed(a1.y, a2.y), max_fixed(b1.y, b2.y));
            if hi.bits > lo.bits {
                return Some(LineSegment { start: FixedVec2::new(a1.x, lo), end: FixedVec2::new(a1.x, hi) });
            }
        }
        None
    } else {
        None
    }
}

/// Edge `i` of a polygon: from vertex `i` to the next vertex, wrapping around.
pub open spec fn poly_edge(v: Seq<FixedVec2>, i: int) -> (FixedVec2, FixedVec2) {
    (v[i], v[(i + 1) % (v.len() as int)])
}

/// Overlap of edge `i` of `a` with edge `j` of `b`.
pub open spec fn edge_overlap(a: Seq<FixedVec2>, b: Seq<FixedVec2>, i: int, j: int) -> Option<LineSegment> {
    overlap_spec(poly_edge(a, i).0, poly_edge(a, i).1, poly_edge(b, j).0, poly_edge(b, j).1)
}

/// Whether `(i, j)` comes before `(i2, j2)`, row-major.
pub open spec fn pair_before(i: int, j: int, i2: int, j2: int) -> bool {
    i < i2 || (i == i2 && j < j2)
}

/// The shared edge of two polygons: the overlap of the first pair of edges,
/// in row-major order over (edge of `a`, edge of `b`), that overlaps.
pub open spec fn shared_edge_spec(a: Seq<FixedVec2>, b: Seq<FixedVec2>, r: Option<LineSegment>) -> bool {
    match r {
        Some(seg) => exists|i: int, j: int|
            #![trigger edge_overlap(a, b, i, j)]
            0 <= i < a.len() && 0 <= j < b.len() && edge_overlap(a, b, i, j) == Some(seg) && forall|i2: int, j2: int|
                0 <= i2 < a.len() && 0 <= j2 < b.len() && pair_before(i2, j2, i, j) ==> #[trigger] edge_overlap(
                    a,
                    b,
                    i2,
                    j2,
                ) is None,
        None => forall|i: int, j: int|
            0 <= i < a.len() && 0 <= j < b.len() ==> #[trigger] edge_overlap(a, b, i, j) is None,
    }
}

/// All vertices of a polygon lie in range.
pub open spec fn vertices_in_range(v: Seq<FixedVec2>) -> bool {
    forall|i: int| 0 <= i < v.len() ==> (#[trigger] v[i]).in_range()
}

/// The first overlapping pair of edges of two regions (see `shared_edge_spec`).
pub fn find_shared_edge(a: &Region, b: &Region) -> (r: Option<LineSegment>)
    requires
        vertices_in_range(a.vertices@),
        vertices_in_range(b.vertices@),
    ensures
        shared_edge_spec(a.vertices@, b.vertices@, r),
{
    let na = a.vertices.len();
    let nb = b.vertices.len();
    let ghost av = a.vertices@;
    let ghost bv = b.vertices@;
    let mut i: usize = 0;
    while i < na
        invariant
            na == av.len(),
            nb == bv.len(),
            av == a.vertices@,
            bv == b.vertices@,
            vertices_in_range(av),
            vertices_in_range(bv),
            i <= na,
            forall|i2: int, j2: int| 0 <= i2 < i && 0 <= j2 < nb ==> #[trigger] edge_overlap(av, bv, i2, j2) is None,
        decreases na - i,
    {
        let a1 = a.vertices[i];
        let a2 = a.vertices[(i + 1) % na];
        let mut j: usize = 0;
        while j < nb
            invariant
                na == av.len(),
                nb == bv.len(),
                av == a.vertices@,
                bv == b.vertices@,
                vertices_in_range(av),
                vertices_in_range(bv),
                i < na,
                j <= nb,
                a1 == av[i as int],
                a2 == av[(i + 1) % (na as int)],
                forall|i2: int, j2: int| 0 <= i2 < i && 0 <= j2 < nb ==> #[trigger] edge_overlap(av, bv, i2, j2) is None,
                forall|j2: int| 0 <= j2 < j ==> #[trigger] edge_overlap(av, bv, i as int, j2) is None,
            decreases nb - j,
        {
            let b1 = b.vertices[j];
            let b2 = b.vertices[(j + 1) % nb];
            let o = compute_segment_overlap(a1, a2, b1, b2);
            if let Some(seg) = o {
                proof {
                    assert(edge_overlap(av, bv, i as int, j as int) == Some(seg));
                    assert forall|i2: int, j2: int|
                        0 <= i2 < na && 0 <= j2 < nb && pair_before(i2, j2, i as int, j as int) implies #[trigger] edge_overlap(
                        av,
                        bv,
                        i2,
                        j2,
                    ) is None by {
                        if i2 == i {
                            assert(edge_overlap(av, bv, i as int, j2) is None);
                        }
                    }
                }
                return Some(seg);
            }
            j = j + 1;
        }
        i = i + 1;
    }
    None
}

/// Both results meet `shared_edge_spec` only if they are equal.
proof fn lemma_shared_edge_unique(a: Seq<FixedVec2>, b: Seq<FixedVec2>, r1: Option<LineSegment>, r2: Option<LineSegment>)
    requires
        shared_edge_spec(a, b, r1),
        shared_edge_spec(a, b, r2),
    ensures
        r1 == r2,
{
    match (r1, r2) {
        (Some(s1), Some(s2)) => {
            let (i1, j1) = choose|i: int, j: int|
                #![trigger edge_overlap(a, b, i, j)]
                0 <= i < a.len() && 0 <= j < b.len() && edge_overlap(a, b, i, j) == Some(s1) && forall|i2: int, j2: int|
                    0 <= i2 < a.len() && 0 <= j2 < b.len() && pair_before(i2, j2, i, j) ==> #[trigger] edge_overlap(
                        a,
                        b,
                        i2,
                        j2,
                    ) is None;
            let (i2, j2) = choose|i: int, j: int|
                #![trigger edge_overlap(a, b, i, j)]
                0 <= i < a.len() && 0 <= j < b.len() && edge_overlap(a, b, i, j) == Some(s2) && forall|i3: int, j3: int|
                    0 <= i3 < a.len() && 0 <= j3 < b.len() && pair_before(i3, j3, i, j) ==> #[trigger] edge_overlap(
                        a,
                        b,
                        i3,
                        j3,
                    ) is None;
            if pair_before(i1, j1, i2, j2) {
                assert(edge_overlap(a, b, i1, j1) is None);
            } else if pair_before(i2, j2, i1, j1) {
                assert(edge_overlap(a, b, i2, j2) is None);
            }
        },
        (Some(s1), None) => {
            let (i1, j1) = choose|i: int, j: int|
                #![trigger edge_overlap(a, b, i, j)]
                0 <= i < a.len() && 0 <= j < b.len() && edge_overlap(a, b, i, j) == Some(s1) && forall|i2: int, j2: int|
                    0 <= i2 < a.len() && 0 <= j2 < b.len() && pair_before(i2, j2, i, j) ==> #[trigger] edge_overlap(
                        a,
                        b,
                        i2,
                        j2,
                    ) is None;
            assert(edge_overlap(a, b, i1, j1) is None);
        },
        (None, Some(s2)) => {
            let (i2, j2) = choose|i: int, j: int|
                #![trigger edge_overlap(a, b, i, j)]
                0 <= i < a.len() && 0 <= j < b.len() && edge_overlap(a, b, i, j) == Some(s2) && forall|i3: int, j3: int|
                    0 <= i3 < a.len() && 0 <= j3 < b.len() && pair_before(i3, j3, i, j) ==> #[trigger] edge_overlap(
                        a,
                        b,
                        i3,
                        j3,
                    ) is None;
            assert(edge_overlap(a, b, i2, j2) is None);
        },
        (None, None) => {},
    }
}

/// The shared edge of two polygons, as a function.
pub open spec fn shared_edge_of(a: Seq<FixedVec2>, b: Seq<FixedVec2>) -> Option<LineSegment> {
    choose|r: Option<LineSegment>| shared_edge_spec(a, b, r)
}

/// Overlap endpoints come from the inputs' coordinates.
proof fn lemma_overlap_in_range(a1: FixedVec2, a2: FixedVec2, b1: FixedVec2, b2: FixedVec2)
    requires
        a1.in_range(),
        a2.in_range(),
        b1.in_range(),
        b2.in_range(),
    ensures
        overlap_spec(a1, a2, b1, b2) matches Some(seg) ==> seg.start.in_range() && seg.end.in_range()
            && (seg.start.x == seg.end.x || seg.start.y == seg.end.y),
{
}

/// Every region among the first `count` slots has coordinates in range.
pub open spec fn regions_in_range(regs: Seq<Option<Region>>, count: int) -> bool {
    forall|i: int|
        0 <= i < count && (#[trigger] regs[i]) is Some ==> vertices_in_range(regs[i]->0.vertices@)
}

/// The portal from region `r` into region `p`, when the two share an edge;
/// the edge is looked up with the lower-indexed region first.
pub open spec fn portal_between(regs: Seq<Option<Region>>, r: int, p: int) -> Option<RegionPortal> {
    let e = if r < p {
        shared_edge_of(regs[r]->0.vertices@, regs[p]->0.vertices@)
    } else {
        shared_edge_of(regs[p]->0.vertices@, regs[r]->0.vertices@)
    };
    match e {
        Some(seg) => Some(
            RegionPortal {
                edge: seg,
                center: FixedVec2 {
                    x: FixedNum { bits: mid_bits(seg.start.x.bits as int, seg.end.x.bits as int) as i64 },
                    y: FixedNum { bits: mid_bits(seg.start.y.bits as int, seg.end.y.bits as int) as i64 },
                },
                next_region: regs[p]->0.id,
            },
        ),
        None => None,
    }
}

/// Portals from region `r` to the regions `0..upto` that share an edge with it, by index.
pub open spec fn partner_portals(regs: Seq<Option<Region>>, r: int, upto: int) -> Seq<RegionPortal>
    decreases upto,
{
    if upto <= 0 {
        Seq::empty()
    } else {
        let prev = partner_portals(regs, r, upto - 1);
        let p = upto - 1;
        if p != r && regs[p] is Some && portal_between(regs, r, p) is Some {
            prev.push(portal_between(regs, r, p)->0)
        } else {
            prev
        }
    }
}

/// Region `r` after its portals to the other regions of the cluster were added.
pub open spec fn with_partner_portals(regs: Seq<Option<Region>>, count: int, r: int, new_reg: Option<Region>) -> bool {
    match regs[r] {
        Some(old) => new_reg matches Some(nr) && nr.id == old.id && nr.bounds == old.bounds && nr.vertices@
            == old.vertices@ && nr.island == old.island && nr.is_dangerous == old.is_dangerous && nr.portals@
            == old.portals@ + partner_portals(regs, r, count),
        None => new_reg is None,
    }
}

/// The portal from region `r` (held in `reg`) to region `p`, if they share an edge.
fn portal_to(regs: &Vec<Option<Region>>, reg: &Region, r: usize, p: usize, Ghost(old_regs): Ghost<Seq<Option<Region>>>) -> (o: Option<RegionPortal>)
    requires
        p < regs@.len(),
        r < old_regs.len(),
        p != r,
        p < old_regs.len(),
        regs@[p as int] is Some,
        old_regs[p as int] is Some,
        regs@[p as int]->0.vertices@ == old_regs[p as int]->0.vertices@,
        regs@[p as int]->0.id == old_regs[p as int]->0.id,
        old_regs[r as int] is Some,
        old_regs[r as int]->0.vertices@ == reg.vertices@,
        vertices_in_range(reg.vertices@),
        vertices_in_range(regs@[p as int]->0.vertices@),
    ensures
        o == portal_between(old_regs, r as int, p as int),
{
    match &regs[p] {
        Some(other) => {
            let e = if r < p {
                find_shared_edge(reg, other)
            } else {
                find_shared_edge(other, reg)
            };
            proof {
                if r < p {
                    lemma_shared_edge_unique(reg.vertices@, other.vertices@, e, shared_edge_of(reg.vertices@, other.vertices@));
                } else {
                    lemma_shared_edge_unique(other.vertices@, reg.vertices@, e, shared_edge_of(other.vertices@, reg.vertices@));
                }
            }
            match e {
                Some(seg) => {
                    proof {
                        if r < p {
                            let (i, j) = choose|i: int, j: int|
                                #![trigger edge_overlap(reg.vertices@, other.vertices@, i, j)]
                                0 <= i < reg.vertices@.len() && 0 <= j < other.vertices@.len() && edge_overlap(reg.vertices@, other.vertices@, i, j) == Some(seg)
                                    && forall|i2: int, j2: int|
                                    0 <= i2 < reg.vertices@.len() && 0 <= j2 < other.vertices@.len() && pair_before(i2, j2, i, j)
                                        ==> #[trigger] edge_overlap(reg.vertices@, other.vertices@, i2, j2) is None;
                            let ea = poly_edge(reg.vertices@, i);
                            let eb = poly_edge(other.vertices@, j);
                            lemma_overlap_in_range(ea.0, ea.1, eb.0, eb.1);
                        } else {
                            let (i, j) = choose|i: int, j: int|
                                #![trigger edge_overlap(other.vertices@, reg.vertices@, i, j)]
                                0 <= i < other.vertices@.len() && 0 <= j < reg.vertices@.len() && edge_overlap(other.vertices@, reg.vertices@, i, j) == Some(seg)
                                    && forall|i2: int, j2: int|
                                    0 <= i2 < other.vertices@.len() && 0 <= j2 < reg.vertices@.len() && pair_before(i2, j2, i, j)
                                        ==> #[trigger] edge_overlap(other.vertices@, reg.vertices@, i2, j2) is None;
                            let ea = poly_edge(other.vertices@, i);
                            let eb = poly_edge(reg.vertices@, j);
                            lemma_overlap_in_range(ea.0, ea.1, eb.0, eb.1);
                        }
                    }
                    let center = seg.center();
                    Some(RegionPortal { edge: seg, center, next_region: other.id })
                },
                None => None,
            }
        },
        None => None,
    }
}

/// Gives every region of the cluster a portal into each other region it
/// shares an edge with, in increasing order of the other region's index.
pub fn find_region_portals(cluster: &mut Cluster)
    requires
        old(cluster).wf(),
        regions_in_range(old(cluster).regions@, old(cluster).region_count as int),
        forall|i: int|
            0 <= i < old(cluster).region_count ==> ((#[trigger] old(cluster).regions@[i]) matches Some(reg) ==> reg.portals@.len()
                + old(cluster).region_count <= usize::MAX),
    ensures
        final(cluster).wf(),
        final(cluster).id == old(cluster).id,
        final(cluster).region_count == old(cluster).region_count,
        final(cluster).island_count == old(cluster).island_count,
        final(cluster).islands@ == old(cluster).islands@,
        final(cluster).local_routing@ == old(cluster).local_routing@,
        final(cluster).neighbor_connectivity@ == old(cluster).neighbor_connectivity@,
        final(cluster).regions@.len() == old(cluster).regions@.len(),
        forall|r: int|
            0 <= r < old(cluster).region_count ==> with_partner_portals(
                old(cluster).regions@,
                old(cluster).region_count as int,
                r,
                #[trigger] final(cluster).regions@[r],
            ),
        forall|r: int|
            old(cluster).region_count <= r < final(cluster).regions@.len() ==> #[trigger] final(cluster).regions@[r]
                == old(cluster).regions@[r],
{
    let ghost old_regs = cluster.regions@;
    let count = cluster.region_count;
    let mut r: usize = 0;
    while r < count
        invariant
            cluster.wf(),
            count == cluster.region_count,
            count == old(cluster).region_count,
            cluster.id == old(cluster).id,
            cluster.island_count == old(cluster).island_count,
            cluster.islands@ == old(cluster).islands@,
            cluster.local_routing@ == old(cluster).local_routing@,
            cluster.neighbor_connectivity@ == old(cluster).neighbor_connectivity@,
            old_regs == old(cluster).regions@,
            old_regs.len() == cluster.regions@.len(),
            regions_in_range(old_regs, count as int),
            forall|i: int|
                0 <= i < count ==> ((#[trigger] old_regs[i]) matches Some(reg) ==> reg.portals@.len() + count <= usize::MAX),
            r <= count,
            forall|i: int| 0 <= i < r ==> with_partner_portals(old_regs, count as int, i, #[trigger] cluster.regions@[i]),
            forall|i: int| r <= i < cluster.regions@.len() ==> #[trigger] cluster.regions@[i] == old_regs[i],
        decreases count - r,
    {
        let mut slot: Option<Region> = None;
        std::mem::swap(&mut slot, &mut cluster.regions[r]);
        match slot {
            Some(mut reg) => {
                let ghost base = reg.portals@;
                let mut p: usize = 0;
                while p < count
                    invariant
                        cluster.wf(),
                        count == cluster.region_count,
                        old_regs == old(cluster).regions@,
                        old_regs.len() == cluster.regions@.len(),
                        regions_in_range(old_regs, count as int),
                        r < count,
                        p <= count,
                        old_regs[r as int] matches Some(o) && o.id == reg.id && o.bounds == reg.bounds
                            && o.vertices@ == reg.vertices@ && o.island == reg.island && o.is_dangerous
                            == reg.is_dangerous && o.portals@ == base,
                        base.len() + count <= usize::MAX,
                        reg.portals@ == base + partner_portals(old_regs, r as int, p as int),
                        partner_portals(old_regs, r as int, p as int).len() <= p,
                        forall|i: int| r < i < cluster.regions@.len() ==> #[trigger] cluster.regions@[i] == old_regs[i],
                        forall|i: int| 0 <= i < r ==> with_partner_portals(old_regs, count as int, i, #[trigger] cluster.regions@[i]),
                        cluster.regions@[r as int] is None,
                    decreases count - p,
                {
                    if p != r {
                        let ghost o = old_regs[r as int]->0;
                        if cluster.regions[p].is_some() {
                            proof {
                                if p < r {
                                    assert(with_partner_portals(old_regs, count as int, p as int, cluster.regions@[p as int]));
                                }
                            }
                            let pt = portal_to(&cluster.regions, &reg, r, p, Ghost(old_regs));
                            if let Some(portal) = pt {
                                reg.portals.push(portal);
                            }
                        } else {
                            proof {
                                if p < r {
                                    assert(with_partner_portals(old_regs, count as int, p as int, cluster.regions@[p as int]));
                                }
                            }
                        }
                    }
                    proof {
                        assert(reg.portals@ =~= base + partner_portals(old_regs, r as int, p + 1));
                    }
                    p = p + 1;
                }
                cluster.regions.set(r, Some(reg));
            },
            None => {
                cluster.regions.set(r, None);
            },
        }
        r = r + 1;
    }
}

// ---------------------------------------------------------------------------
// Local routing
// ---------------------------------------------------------------------------

/// Region `a` has a portal into region `b`.
pub open spec fn region_step(regs: Seq<Option<Region>>, a: int, b: int) -> bool {
    &&& 0 <= a < regs.len()
    &&& regs[a] is Some
    &&& exists|k: int|
        0 <= k < regs[a]->0.portals@.len() && (#[trigger] regs[a]->0.portals@[k]).next_region.0 == b
}

/// A walk through regions along portals.
pub open spec fn region_walk(regs: Seq<Option<Region>>, p: Seq<int>) -> bool {
    &&& p.len() >= 1
    &&& forall|i: int| 0 <= i < p.len() - 1 ==> #[trigger] region_step(regs, p[i], p[i + 1])
}

/// Region `b` can be reached from region `a` along portals.
pub open spec fn region_reachable(regs: Seq<Option<Region>>, a: int, b: int) -> bool {
    exists|p: Seq<int>| #[trigger] region_walk(regs, p) && p[0] == a && p.last() == b
}

proof fn lemma_reachable_refl(regs: Seq<Option<Region>>, a: int)
    ensures
        region_reachable(regs, a, a),
{
    let p = seq![a];
    assert(region_walk(regs, p));
}

proof fn lemma_reachable_prepend(regs: Seq<Option<Region>>, a: int, b: int, c: int)
    requires
        region_step(regs, a, b),
        region_reachable(regs, b, c),
    ensures
        region_reachable(regs, a, c),
{
    let p = choose|p: Seq<int>| #[trigger] region_walk(regs, p) && p[0] == b && p.last() == c;
    let q = seq![a] + p;
    assert forall|i: int| 0 <= i < q.len() - 1 implies #[trigger] region_step(regs, q[i], q[i + 1]) by {
        if i == 0 {
            assert(q[0] == a && q[1] == p[0]);
        } else {
            let j = i - 1;
            assert(q[i] == p[j] && q[i + 1] == p[j + 1]);
            assert(region_step(regs, p[j], p[j + 1]));
        }
    }
    assert(region_walk(regs, q));
    assert(q.last() == p.last());
}

proof fn lemma_reachable_step(regs: Seq<Option<Region>>, a: int, b: int, c: int)
    requires
        region_reachable(regs, a, b),
        region_step(regs, b, c),
    ensures
        region_reachable(regs, a, c),
{
    let p = choose|p: Seq<int>| #[trigger] region_walk(regs, p) && p[0] == a && p.last() == b;
    let q = p.push(c);
    assert forall|i: int| 0 <= i < q.len() - 1 implies #[trigger] region_step(regs, q[i], q[i + 1]) by {
        if i < p.len() - 1 {
            assert(q[i] == p[i] && q[i + 1] == p[i + 1]);
        }
    }
    assert(region_walk(regs, q));
}

/// Largest crossing cost the routing search allows for one portal.
pub const EDGE_COST_BOUND: i64 = 0x100_0000_0000;

/// The regions of a cluster are indexed by their ids, and every portal leads
/// to one of the first `count` regions across an axis-aligned edge in range.
pub open spec fn routable_regions(regs: Seq<Option<Region>>, count: int) -> bool {
    &&& regs.len() == MAX_REGIONS
    &&& 0 <= count <= MAX_REGIONS
    &&& forall|i: int| 0 <= i < MAX_REGIONS && (#[trigger] regs[i]) is Some ==> regs[i]->0.id.0 == i
    &&& forall|i: int, k: int|
        0 <= i < MAX_REGIONS && regs[i] is Some && 0 <= k < regs[i]->0.portals@.len() ==> {
            let pt = #[trigger] regs[i]->0.portals@[k];
            &&& pt.next_region.0 < count
            &&& pt.edge.start.in_range()
            &&& pt.edge.end.in_range()
            &&& pt.edge.axis_aligned()
        }
}

/// Number of regions a search has reached.
pub open spec fn count_some(d: Seq<Option<i64>>) -> int
    decreases d.len(),
{
    if d.len() == 0 {
        0
    } else {
        count_some(d.drop_last()) + if d.last() is Some { 1int } else { 0int }
    }
}

/// Sum of the termination potentials of a distance table.
pub open spec fn potential(d: Seq<Option<i64>>) -> int
    decreases d.len(),
{
    if d.len() == 0 {
        0
    } else {
        potential(d.drop_last()) + match d.last() {
            Some(v) => v + 1,
            None => 33 * EDGE_COST_BOUND + 2,
        }
    }
}

proof fn lemma_count_potential_update(d: Seq<Option<i64>>, i: int, v: i64)
    requires
        0 <= i < d.len(),
    ensures
        count_some(d.update(i, Some(v))) == count_some(d) + if d[i] is Some { 0int } else { 1int },
        potential(d.update(i, Some(v))) == potential(d) - match d[i] {
            Some(o) => o + 1,
            None => 33 * EDGE_COST_BOUND + 2,
        } + v + 1,
    decreases d.len(),
{
    if i == d.len() - 1 {
        assert(d.update(i, Some(v)).drop_last() =~= d.drop_last());
    } else {
        lemma_count_potential_update(d.drop_last(), i, v);
        assert(d.update(i, Some(v)).drop_last() =~= d.drop_last().update(i, Some(v)));
    }
}

proof fn lemma_count_bounds(d: Seq<Option<i64>>)
    ensures
        0 <= count_some(d) <= d.len(),
    decreases d.len(),
{
    if d.len() > 0 {
        lemma_count_bounds(d.drop_last());
    }
}

proof fn lemma_potential_nonneg(d: Seq<Option<i64>>)
    requires
        forall|i: int| 0 <= i < d.len() ==> (#[trigger] d[i] matches Some(v) ==> v >= 0),
    ensures
        potential(d) >= 0,
    decreases d.len(),
{
    if d.len() > 0 {
        assert forall|i: int| 0 <= i < d.drop_last().len() implies (#[trigger] d.drop_last()[i] matches Some(v) ==> v >= 0) by {
            assert(d.drop_last()[i] == d[i]);
        }
        lemma_potential_nonneg(d.drop_last());
    }
}

/// Invariant of the routing search from region `sid`.
pub open spec fn search_inv(
    regs: Seq<Option<Region>>,
    count: int,
    sid: int,
    dist: Seq<Option<i64>>,
    hop: Seq<Option<u8>>,
    heap: Seq<(i64, u8)>,
    done: Seq<bool>,
) -> bool {
    &&& dist.len() == MAX_REGIONS
    &&& hop.len() == MAX_REGIONS
    &&& done.len() == MAX_REGIONS
    &&& dist[sid] == Some(0i64)
    &&& hop[sid] is None
    &&& forall|v: int|
        0 <= v < MAX_REGIONS ==> (#[trigger] dist[v] matches Some(d) ==> 0 <= d <= (count_some(dist) - 1) * EDGE_COST_BOUND)
    &&& forall|k: int|
        0 <= k < heap.len() ==> {
            let e = #[trigger] heap[k];
            &&& (e.1 as int) < MAX_REGIONS
            &&& (dist[e.1 as int] matches Some(d) && d <= e.0)
            &&& e.0 <= (count_some(dist) - 1) * EDGE_COST_BOUND
        }
    &&& forall|v: int|
        0 <= v < MAX_REGIONS && v != sid && (#[trigger] dist[v]) is Some ==> (hop[v] matches Some(h) && region_step(
            regs,
            sid,
            h as int,
        ) && region_reachable(regs, h as int, v))
    &&& forall|v: int| 0 <= v < MAX_REGIONS && (#[trigger] dist[v]) is None ==> hop[v] is None
    &&& forall|v: int|
        0 <= v < MAX_REGIONS && (#[trigger] done[v]) ==> dist[v] is Some && forall|w: int|
            region_step(regs, v, w) ==> 0 <= w < MAX_REGIONS && #[trigger] dist[w] is Some
    &&& forall|v: int|
        0 <= v < MAX_REGIONS && (#[trigger] dist[v]) is Some ==> done[v] || exists|k: int|
            0 <= k < heap.len() && heap[k].1 == v && Some(#[trigger] heap[k].0) == dist[v]
}

/// Index of the smallest entry of a non-empty heap, comparing cost then region.
fn heap_min(heap: &Vec<(i64, u8)>) -> (m: usize)
    requires
        heap@.len() > 0,
    ensures
        m < heap@.len(),
        forall|k: int|
            0 <= k < heap@.len() ==> heap@[m as int].0 < heap@[k].0 || (heap@[m as int].0 == heap@[k].0
                && heap@[m as int].1 <= heap@[k].1),
{
    let mut m: usize = 0;
    let mut k: usize = 1;
    while k < heap.len()
        invariant
            heap@.len() > 0,
            m < heap@.len(),
            1 <= k <= heap@.len(),
            forall|j: int|
                0 <= j < k ==> heap@[m as int].0 < heap@[j].0 || (heap@[m as int].0 == heap@[j].0 && heap@[m as int].1
                    <= heap@[j].1),
        decreases heap@.len() - k,
    {
        let (c, v) = heap[k];
        let (mc, mv) = heap[m];
        if c < mc || (c == mc && v < mv) {
            m = k;
        }
        k = k + 1;
    }
    m
}

/// Removes entry `m` by moving the last entry into its place.
#[verifier::spinoff_prover]
fn heap_take(heap: &mut Vec<(i64, u8)>, m: usize) -> (e: (i64, u8))
    requires
        m < old(heap)@.len(),
    ensures
        e == old(heap)@[m as int],
        final(heap)@.len() == old(heap)@.len() - 1,
        forall|k: int|
            0 <= k < final(heap)@.len() ==> exists|j: int|
                0 <= j < old(heap)@.len() && j != m && #[trigger] final(heap)@[k] == old(heap)@[j],
        forall|j: int|
            0 <= j < old(heap)@.len() && j != m ==> exists|k: int|
                0 <= k < final(heap)@.len() && final(heap)@[k] == #[trigger] old(heap)@[j],
{
    let e = heap[m];
    let last = heap.len() - 1;
    let ghost h0 = heap@;
    let t = heap[last];
    heap.set(m, t);
    heap.pop();
    proof {
        let h1 = h0.update(m as int, t);
        assert(heap@ =~= h1.drop_last());
        assert forall|k: int| 0 <= k < heap@.len() implies exists|j: int|
            0 <= j < h0.len() && j != m && #[trigger] heap@[k] == h0[j] by {
            if k == m {
                assert(heap@[k] == h0[last as int]);
            } else {
                assert(heap@[k] == h0[k]);
            }
        }
        assert forall|j: int| 0 <= j < h0.len() && j != m implies exists|k: int|
            0 <= k < heap@.len() && heap@[k] == #[trigger] h0[j] by {
            if j == last {
                assert(heap@[m as int] == h0[j]);
            } else {
                assert(heap@[j] == h0[j]);
            }
        }
    }
    e
}


/// Every region reachable from `sid` has been reached once every reached region is done.
proof fn lemma_search_closed(
    regs: Seq<Option<Region>>,
    sid: int,
    dist: Seq<Option<i64>>,
    done: Seq<bool>,
    p: Seq<int>,
)
    requires
        dist.len() == MAX_REGIONS,
        done.len() == MAX_REGIONS,
        0 <= sid < MAX_REGIONS,
        dist[sid] is Some,
        forall|v: int| 0 <= v < MAX_REGIONS && (#[trigger] dist[v]) is Some ==> done[v],
        forall|v: int|
            0 <= v < MAX_REGIONS && (#[trigger] done[v]) ==> dist[v] is Some && forall|w: int|
                region_step(regs, v, w) ==> 0 <= w < MAX_REGIONS && #[trigger] dist[w] is Some,
        region_walk(regs, p),
        p[0] == sid,
    ensures
        0 <= p.last() < MAX_REGIONS,
        dist[p.last()] is Some,
    decreases p.len(),
{
    if p.len() > 1 {
        let q = p.drop_last();
        assert forall|i: int| 0 <= i < q.len() - 1 implies #[trigger] region_step(regs, q[i], q[i + 1]) by {
            assert(q[i] == p[i] && q[i + 1] == p[i + 1]);
        }
        lemma_search_closed(regs, sid, dist, done, q);
        let i = p.len() - 2;
        assert(region_step(regs, p[i], p[i + 1]));
        assert(q.last() == p[i]);
    }
}

/// Cost of crossing a portal: the length of its edge.
pub open spec fn portal_cost(pt: RegionPortal) -> int {
    abs_int(pt.edge.end.x.bits - pt.edge.start.x.bits) + abs_int(pt.edge.end.y.bits - pt.edge.start.y.bits)
}

/// Portal `k` of region `a` leads into region `b`.
pub open spec fn portal_hop(regs: Seq<Option<Region>>, a: int, k: int, b: int) -> bool {
    &&& 0 <= a < regs.len()
    &&& regs[a] is Some
    &&& 0 <= k < regs[a]->0.portals@.len()
    &&& regs[a]->0.portals@[k].next_region.0 == b
}

/// A walk through regions `p` crossing, at each step, the portal whose index `ks` gives.
pub open spec fn weighted_walk(regs: Seq<Option<Region>>, p: Seq<int>, ks: Seq<int>) -> bool {
    &&& p.len() == ks.len() + 1
    &&& forall|i: int| 0 <= i < ks.len() ==> #[trigger] portal_hop(regs, p[i], ks[i], p[i + 1])
}

/// Summed portal costs of a weighted walk.
pub open spec fn walk_cost(regs: Seq<Option<Region>>, p: Seq<int>, ks: Seq<int>) -> int
    decreases ks.len(),
{
    if ks.len() == 0 || p.len() < 2 {
        0
    } else {
        walk_cost(regs, p.drop_last(), ks.drop_last()) + portal_cost(regs[p[p.len() - 2]]->0.portals@[ks.last()])
    }
}

/// No weighted walk from `a` to `b` costs less than `d`.
pub open spec fn no_cheaper_walk(regs: Seq<Option<Region>>, a: int, b: int, d: int) -> bool {
    forall|p: Seq<int>, ks: Seq<int>|
        #[trigger] weighted_walk(regs, p, ks) && p[0] == a && p.last() == b ==> walk_cost(regs, p, ks) >= d
}

/// Some weighted walk from `a` to `b` of cost `d` enters region `h` first
/// (where `a` and `b` differ).
pub open spec fn walk_of_cost(regs: Seq<Option<Region>>, a: int, b: int, d: int, h: Option<u8>) -> bool {
    exists|p: Seq<int>, ks: Seq<int>|
        #[trigger] weighted_walk(regs, p, ks) && p[0] == a && p.last() == b && walk_cost(regs, p, ks) == d && (a != b
            ==> (h matches Some(x) && p[1] == x as int))
}

/// Region `h` is the first region entered by a least-cost walk from `a` to `b`.
pub open spec fn least_cost_first(regs: Seq<Option<Region>>, a: int, b: int, h: int) -> bool {
    exists|d: int| #[trigger] walk_of_cost(regs, a, b, d, Some(h as u8)) && no_cheaper_walk(regs, a, b, d) && 0 <= h < 256
}

/// Every region the search reached has a walk from `sid` of its recorded
/// cost, entering its recorded first hop first.
pub open spec fn dist_walks(regs: Seq<Option<Region>>, sid: int, dist: Seq<Option<i64>>, hop: Seq<Option<u8>>) -> bool {
    forall|v: int| 0 <= v < MAX_REGIONS ==> (#[trigger] dist[v] matches Some(d) ==> walk_of_cost(regs, sid, v, d as int, hop[v]))
}

/// Every settled region has its least walk cost recorded.
pub open spec fn settled_min(regs: Seq<Option<Region>>, sid: int, dist: Seq<Option<i64>>, done: Seq<bool>) -> bool {
    forall|v: int| 0 <= v < MAX_REGIONS && #[trigger] done[v] ==> dist[v] is Some && no_cheaper_walk(regs, sid, v, dist[v]->0 as int)
}

/// Every portal out of a settled region has been relaxed.
pub open spec fn settled_relaxed(regs: Seq<Option<Region>>, dist: Seq<Option<i64>>, done: Seq<bool>) -> bool {
    forall|v: int, k: int|
        0 <= v < MAX_REGIONS && #[trigger] done[v] && portal_hop(regs, v, k, regs[v]->0.portals@[k].next_region.0 as int) ==> {
            let w = regs[v]->0.portals@[k].next_region.0 as int;
            &&& 0 <= w < MAX_REGIONS
            &&& dist[w] is Some
            &&& dist[w]->0 <= dist[v]->0 + portal_cost(#[trigger] regs[v]->0.portals@[k])
        }
}

/// A walk of cost `cost` to `cur`, extended across portal `k`, is one to `nb`.
proof fn lemma_walk_of_cost_step(
    regs: Seq<Option<Region>>,
    sid: int,
    cur: int,
    cost: int,
    hcur: Option<u8>,
    k: int,
    nb: int,
)
    requires
        walk_of_cost(regs, sid, cur, cost, hcur),
        portal_hop(regs, cur, k, nb),
        cur == sid ==> cost == 0,
        0 <= nb < 256,
    ensures
        walk_of_cost(
            regs,
            sid,
            nb,
            cost + portal_cost(regs[cur]->0.portals@[k]),
            if cur == sid { Some(nb as u8) } else { hcur },
        ),
{
    let h2: Option<u8> = if cur == sid { Some(nb as u8) } else { hcur };
    if cur == sid {
        let p = seq![sid];
        let ks = Seq::<int>::empty();
        assert(weighted_walk(regs, p, ks));
        lemma_walk_extend(regs, p, ks, k, nb);
        let q = p.push(nb);
        let qs = ks.push(k);
        assert(q[1] == nb);
        assert(walk_cost(regs, p, ks) == 0);
        assert(weighted_walk(regs, q, qs) && q[0] == sid && q.last() == nb && walk_cost(regs, q, qs) == cost + portal_cost(regs[cur]->0.portals@[k]) && (sid != nb ==> (h2 matches Some(x) && q[1] == x as int)));
    } else {
        let (p, ks) = choose|p: Seq<int>, ks: Seq<int>|
            #[trigger] weighted_walk(regs, p, ks) && p[0] == sid && p.last() == cur && walk_cost(regs, p, ks) == cost && (sid != cur
                ==> (hcur matches Some(x) && p[1] == x as int));
        lemma_walk_extend(regs, p, ks, k, nb);
        let q = p.push(nb);
        let qs = ks.push(k);
        assert(weighted_walk(regs, q, qs) && q[0] == sid && q.last() == nb && walk_cost(regs, q, qs) == cost + portal_cost(regs[cur]->0.portals@[k]) && (sid != nb ==> (h2 matches Some(x) && q[1] == x as int)));
    }
}

/// Two region tables with the same regions and the same portals.
pub open spec fn same_portals(r1: Seq<Option<Region>>, r2: Seq<Option<Region>>) -> bool {
    &&& r1.len() == r2.len()
    &&& forall|i: int|
        0 <= i < r1.len() ==> (#[trigger] r1[i] is Some) == (r2[i] is Some) && (r1[i] is Some ==> r1[i]->0.portals@
            == r2[i]->0.portals@)
}

proof fn lemma_walk_same(r1: Seq<Option<Region>>, r2: Seq<Option<Region>>, p: Seq<int>, ks: Seq<int>)
    requires
        same_portals(r1, r2),
        weighted_walk(r1, p, ks),
    ensures
        weighted_walk(r2, p, ks),
        walk_cost(r1, p, ks) == walk_cost(r2, p, ks),
    decreases ks.len(),
{
    assert forall|i: int| 0 <= i < ks.len() implies #[trigger] portal_hop(r2, p[i], ks[i], p[i + 1]) by {
        assert(portal_hop(r1, p[i], ks[i], p[i + 1]));
    }
    if ks.len() > 0 {
        let q = p.drop_last();
        let qs = ks.drop_last();
        assert forall|i: int| 0 <= i < qs.len() implies #[trigger] portal_hop(r1, q[i], qs[i], q[i + 1]) by {
            assert(portal_hop(r1, p[i], ks[i], p[i + 1]));
        }
        lemma_walk_same(r1, r2, q, qs);
        let n = ks.len() - 1;
        assert(portal_hop(r1, p[n], ks[n], p[n + 1]));
    }
}

/// The least-cost first hops depend on the regions' portals alone.
pub proof fn lemma_least_cost_transfer(r1: Seq<Option<Region>>, r2: Seq<Option<Region>>, a: int, b: int, h: int)
    requires
        same_portals(r1, r2),
        least_cost_first(r1, a, b, h),
    ensures
        least_cost_first(r2, a, b, h),
{
    assert(same_portals(r2, r1));
    let d = choose|d: int| #[trigger] walk_of_cost(r1, a, b, d, Some(h as u8)) && no_cheaper_walk(r1, a, b, d) && 0 <= h < 256;
    let (p, ks) = choose|p: Seq<int>, ks: Seq<int>|
        #[trigger] weighted_walk(r1, p, ks) && p[0] == a && p.last() == b && walk_cost(r1, p, ks) == d && (a != b
            ==> (Some(h as u8) matches Some(x) && p[1] == x as int));
    lemma_walk_same(r1, r2, p, ks);
    assert(walk_of_cost(r2, a, b, d, Some(h as u8)));
    assert forall|q: Seq<int>, qs: Seq<int>| #[trigger] weighted_walk(r2, q, qs) && q[0] == a && q.last() == b implies walk_cost(r2, q, qs) >= d by {
        lemma_walk_same(r2, r1, q, qs);
    }
}

proof fn lemma_walk_extend(regs: Seq<Option<Region>>, p: Seq<int>, ks: Seq<int>, k: int, y: int)
    requires
        weighted_walk(regs, p, ks),
        portal_hop(regs, p.last(), k, y),
    ensures
        weighted_walk(regs, p.push(y), ks.push(k)),
        walk_cost(regs, p.push(y), ks.push(k)) == walk_cost(regs, p, ks) + portal_cost(regs[p.last()]->0.portals@[k]),
        p.push(y)[0] == p[0],
        p.len() >= 2 ==> p.push(y)[1] == p[1],
{
    let q = p.push(y);
    let qs = ks.push(k);
    assert(q.drop_last() =~= p);
    assert(qs.drop_last() =~= ks);
    assert forall|i: int| 0 <= i < qs.len() implies #[trigger] portal_hop(regs, q[i], qs[i], q[i + 1]) by {
        if i < ks.len() {
            assert(q[i] == p[i] && qs[i] == ks[i] && q[i + 1] == p[i + 1]);
        }
    }
}

proof fn lemma_walk_cost_nonneg(regs: Seq<Option<Region>>, p: Seq<int>, ks: Seq<int>)
    ensures
        walk_cost(regs, p, ks) >= 0,
    decreases ks.len(),
{
    if ks.len() > 0 && p.len() >= 2 {
        lemma_walk_cost_nonneg(regs, p.drop_last(), ks.drop_last());
    }
}

/// Every region reached but not yet settled costs at least `cost`; then every
/// walk from `sid` costs at least `cost` or ends at a settled region.
proof fn lemma_walk_bound(
    regs: Seq<Option<Region>>,
    sid: int,
    dist: Seq<Option<i64>>,
    done: Seq<bool>,
    cost: int,
    p: Seq<int>,
    ks: Seq<int>,
)
    requires
        dist.len() == MAX_REGIONS,
        done.len() == MAX_REGIONS,
        0 <= sid < MAX_REGIONS,
        dist[sid] == Some(0i64),
        forall|v: int| 0 <= v < MAX_REGIONS && #[trigger] done[v] ==> dist[v] is Some && no_cheaper_walk(regs, sid, v, dist[v]->0 as int),
        forall|v: int, k: int|
            0 <= v < MAX_REGIONS && #[trigger] done[v] && portal_hop(regs, v, k, regs[v]->0.portals@[k].next_region.0 as int) ==> {
                let w = regs[v]->0.portals@[k].next_region.0 as int;
                &&& 0 <= w < MAX_REGIONS
                &&& dist[w] is Some
                &&& dist[w]->0 <= dist[v]->0 + portal_cost(#[trigger] regs[v]->0.portals@[k])
            },
        forall|v: int| 0 <= v < MAX_REGIONS && (#[trigger] dist[v]) is Some && !done[v] ==> cost <= dist[v]->0,
        weighted_walk(regs, p, ks),
        p[0] == sid,
    ensures
        walk_cost(regs, p, ks) >= cost || (0 <= p.last() < MAX_REGIONS && done[p.last()]),
    decreases ks.len(),
{
    if ks.len() == 0 {
        assert(p.last() == sid);
    } else {
        let q = p.drop_last();
        let qs = ks.drop_last();
        assert forall|i: int| 0 <= i < qs.len() implies #[trigger] portal_hop(regs, q[i], qs[i], q[i + 1]) by {
            assert(portal_hop(regs, p[i], ks[i], p[i + 1]));
        }
        lemma_walk_bound(regs, sid, dist, done, cost, q, qs);
        let x = q.last();
        let k = ks.last();
        let n = ks.len() - 1;
        assert(portal_hop(regs, p[n], ks[n], p[n + 1]));
        assert(x == p[n]);
        let pt = regs[x]->0.portals@[k];
        lemma_walk_cost_nonneg(regs, q, qs);
        assert(walk_cost(regs, p, ks) == walk_cost(regs, q, qs) + portal_cost(pt));
        if walk_cost(regs, q, qs) < cost {
            assert(done[x]);
            assert(portal_hop(regs, x, k, pt.next_region.0 as int));
            assert(weighted_walk(regs, q, qs));
            assert(q[0] == sid);
            assert(no_cheaper_walk(regs, sid, x, dist[x]->0 as int));
            assert(walk_cost(regs, q, qs) >= dist[x]->0);
            let y = p.last();
            assert(y == pt.next_region.0);
        }
    }
}

/// First hops out of region `sid`: for every region `v` other than `sid`, the
/// neighbour of `sid` through which the cheapest-first search first reached
/// `v`, or `None` when `v` cannot be reached.  Crossing a portal costs the
/// length of its edge.
#[verifier::rlimit(60)]
#[verifier::spinoff_prover]
fn route_from(regs: &Vec<Option<Region>>, count: usize, sid: usize) -> (hop: Vec<Option<u8>>)
    requires
        routable_regions(regs@, count as int),
        sid < count,
        regs@[sid as int] is Some,
    ensures
        hop@.len() == MAX_REGIONS,
        hop@[sid as int] is None,
        forall|v: int|
            0 <= v < MAX_REGIONS && v != sid ==> ((#[trigger] hop@[v] matches Some(h) ==> region_step(
                regs@,
                sid as int,
                h as int,
            ) && region_reachable(regs@, h as int, v) && least_cost_first(regs@, sid as int, v, h as int))
                && (region_reachable(regs@, sid as int, v) ==> hop@[v] is Some)),
{
    let ghost rs = regs@;
    let mut dist: Vec<Option<i64>> = Vec::new();
    let mut hop: Vec<Option<u8>> = Vec::new();
    let mut i: usize = 0;
    while i < MAX_REGIONS
        invariant
            i <= MAX_REGIONS,
            dist@.len() == i,
            hop@.len() == i,
            forall|j: int| 0 <= j < i ==> (#[trigger] dist@[j]) is None && hop@[j] is None,
        decreases MAX_REGIONS - i,
    {
        dist.push(None);
        hop.push(None);
        i = i + 1;
    }
    let ghost mut done: Seq<bool> = Seq::new(MAX_REGIONS as nat, |j: int| false);
    proof {
        lemma_count_potential_update(dist@, sid as int, 0);
    }
    let ghost d_empty = dist@;
    dist.set(sid, Some(0));
    proof {
        assert(count_some(d_empty) == 0) by {
            assert forall|j: int| 0 <= j < d_empty.len() implies !(#[trigger] d_empty[j] is Some) by {}
            lemma_count_zero(d_empty);
        }
    }
    let mut heap: Vec<(i64, u8)> = Vec::new();
    heap.push((0, sid as u8));
    proof {
        assert forall|v: int| 0 <= v < MAX_REGIONS && (#[trigger] dist@[v]) is Some implies done[v] || exists|k: int|
            0 <= k < heap@.len() && heap@[k].1 == v && Some(#[trigger] heap@[k].0) == dist@[v] by {
            assert(v == sid);
            assert(heap@[0].1 == v);
            assert(Some(heap@[0].0) == dist@[v]);
        }
        assert(search_inv(rs, count as int, sid as int, dist@, hop@, heap@, done));
        lemma_count_bounds(dist@);
        assert(walk_cost(rs, seq![sid as int], Seq::<int>::empty()) == 0);
        assert(weighted_walk(rs, seq![sid as int], Seq::<int>::empty()));
        assert(walk_of_cost(rs, sid as int, sid as int, 0, hop@[sid as int]));
        assert(dist_walks(rs, sid as int, dist@, hop@));
    }
    while heap.len() > 0
        invariant
            rs == regs@,
            routable_regions(rs, count as int),
            sid < count,
            rs[sid as int] is Some,
            search_inv(rs, count as int, sid as int, dist@, hop@, heap@, done),
            dist_walks(rs, sid as int, dist@, hop@),
            settled_min(rs, sid as int, dist@, done),
            settled_relaxed(rs, dist@, done),
        decreases potential(dist@), heap@.len(),
    {
        proof {
            lemma_count_bounds(dist@);
            assert forall|i: int| 0 <= i < dist@.len() implies (#[trigger] dist@[i] matches Some(v) ==> v >= 0) by {}
            lemma_potential_nonneg(dist@);
        }
        let ghost heap0 = heap@;
        let m = heap_min(&heap);
        let (cost, cur8) = heap_take(&mut heap, m);
        let cur = cur8 as usize;
        let ghost dist0 = dist@;
        let best = match dist[cur] {
            Some(b) => b,
            None => {
                proof {
                    assert(heap0[m as int] == (cost, cur8));
                }
                return hop;
            },
        };
        if cost > best {
            proof {
                assert forall|v: int| 0 <= v < MAX_REGIONS && (#[trigger] dist@[v]) is Some implies done[v] || exists|k: int|
                    0 <= k < heap@.len() && heap@[k].1 == v && Some(#[trigger] heap@[k].0) == dist@[v] by {
                    if !done[v] {
                        let k0 = choose|k: int| 0 <= k < heap0.len() && heap0[k].1 == v && Some(#[trigger] heap0[k].0) == dist@[v];
                        assert(k0 != m);
                        let k1 = choose|k: int| 0 <= k < heap@.len() && heap@[k] == #[trigger] heap0[k0];
                        assert(heap@[k1].1 == v);
                    }
                }
                assert forall|k: int| 0 <= k < heap@.len() implies {
                    let e = #[trigger] heap@[k];
                    &&& (e.1 as int) < MAX_REGIONS
                    &&& (dist@[e.1 as int] matches Some(d) && d <= e.0)
                    &&& e.0 <= (count_some(dist@) - 1) * EDGE_COST_BOUND
                } by {
                    let j = choose|j: int| 0 <= j < heap0.len() && j != m && #[trigger] heap@[k] == heap0[j];
                    assert(heap0[j] == heap@[k]);
                }
                assert(dist@ == dist0);
                assert(heap@.len() < heap0.len());
            }
            continue;
        }
        assert(cost == best) by {
            assert(heap0[m as int] == (cost, cur8));
        }
        proof {
            assert forall|v: int| 0 <= v < MAX_REGIONS && (#[trigger] dist@[v]) is Some && !done[v] implies cost <= dist@[v]->0 by {
                let k0 = choose|k: int| 0 <= k < heap0.len() && heap0[k].1 == v && Some(#[trigger] heap0[k].0) == dist@[v];
                assert(heap0[m as int].0 <= heap0[k0].0);
            }
            assert forall|p: Seq<int>, ks: Seq<int>|
                #[trigger] weighted_walk(rs, p, ks) && p[0] == sid && p.last() == cur implies walk_cost(rs, p, ks) >= cost by {
                lemma_walk_bound(rs, sid as int, dist@, done, cost as int, p, ks);
            }
            assert(no_cheaper_walk(rs, sid as int, cur as int, cost as int));
        }
        proof {
            assert forall|k: int| 0 <= k < heap@.len() implies {
                let e = #[trigger] heap@[k];
                &&& (e.1 as int) < MAX_REGIONS
                &&& (dist@[e.1 as int] matches Some(d) && d <= e.0)
                &&& e.0 <= (count_some(dist@) - 1) * EDGE_COST_BOUND
            } by {
                let j = choose|j: int| 0 <= j < heap0.len() && j != m && #[trigger] heap@[k] == heap0[j];
                assert(heap0[j] == heap@[k]);
            }
            assert forall|v: int| 0 <= v < MAX_REGIONS && v != cur && (#[trigger] dist@[v]) is Some implies done[v] || exists|k: int|
                0 <= k < heap@.len() && heap@[k].1 == v && Some(#[trigger] heap@[k].0) == dist@[v] by {
                if !done[v] {
                    let k0 = choose|k: int| 0 <= k < heap0.len() && heap0[k].1 == v && Some(#[trigger] heap0[k].0) == dist@[v];
                    assert(k0 != m);
                    let k1 = choose|k: int| 0 <= k < heap@.len() && heap@[k] == #[trigger] heap0[k0];
                    assert(heap@[k1].1 == v);
                }
            }
        }
        match &regs[cur] {
            None => {
                proof {
                    done = done.update(cur as int, true);
                }
            },
            Some(reg) => {
                let np = reg.portals.len();
                let mut k: usize = 0;
                while k < np
                    invariant
                        rs == regs@,
                        routable_regions(rs, count as int),
                        sid < count,
                        rs[sid as int] is Some,
                        cur < MAX_REGIONS,
                        rs[cur as int] == Some(*reg),
                        np == reg.portals@.len(),
                        k <= np,
                        dist@.len() == MAX_REGIONS,
                        hop@.len() == MAX_REGIONS,
                        done.len() == MAX_REGIONS,
                        dist@[sid as int] == Some(0i64),
                        hop@[sid as int] is None,
                        dist@[cur as int] == Some(cost),
                        potential(dist@) <= potential(dist0),
                        heap@.len() >= heap0.len() - 1,
                        potential(dist@) == potential(dist0) ==> heap@.len() == heap0.len() - 1,
                        forall|v: int|
                            0 <= v < MAX_REGIONS ==> (#[trigger] dist@[v] matches Some(d) ==> 0 <= d <= (count_some(dist@) - 1)
                                * EDGE_COST_BOUND),
                        forall|j: int|
                            0 <= j < heap@.len() ==> {
                                let e = #[trigger] heap@[j];
                                &&& (e.1 as int) < MAX_REGIONS
                                &&& (dist@[e.1 as int] matches Some(d) && d <= e.0)
                                &&& e.0 <= (count_some(dist@) - 1) * EDGE_COST_BOUND
                            },
                        forall|v: int|
                            0 <= v < MAX_REGIONS && v != sid && (#[trigger] dist@[v]) is Some ==> (hop@[v] matches Some(h)
                                && region_step(rs, sid as int, h as int) && region_reachable(rs, h as int, v)),
                        forall|v: int| 0 <= v < MAX_REGIONS && (#[trigger] dist@[v]) is None ==> hop@[v] is None,
                        forall|v: int|
                            0 <= v < MAX_REGIONS && (#[trigger] done[v]) ==> dist@[v] is Some && forall|w: int|
                                region_step(rs, v, w) ==> 0 <= w < MAX_REGIONS && #[trigger] dist@[w] is Some,
                        forall|v: int|
                            0 <= v < MAX_REGIONS && v != cur && (#[trigger] dist@[v]) is Some ==> done[v] || exists|j: int|
                                0 <= j < heap@.len() && heap@[j].1 == v && Some(#[trigger] heap@[j].0) == dist@[v],
                        forall|j: int| 0 <= j < k ==> #[trigger] dist@[reg.portals@[j].next_region.0 as int] is Some
                            && dist@[reg.portals@[j].next_region.0 as int]->0 <= cost + portal_cost(reg.portals@[j]),
                        dist_walks(rs, sid as int, dist@, hop@),
                        settled_min(rs, sid as int, dist@, done),
                        settled_relaxed(rs, dist@, done),
                        no_cheaper_walk(rs, sid as int, cur as int, cost as int),
                        forall|v: int| 0 <= v < MAX_REGIONS && #[trigger] done[v] ==> dist@[v] == dist0[v],
                    decreases np - k,
                {
                    let pt = reg.portals[k];
                    let ghost kk = k as int;
                    assert(pt == rs[cur as int]->0.portals@[kk]);
                    let nb = pt.next_region.0 as usize;
                    let len = pt.edge.length();
                    proof {
                        lemma_count_bounds(dist@);
                        assert(len.bits <= 0x80_0000_0000);
                    }
                    let new_cost = cost + len.bits;
                    proof {
                        assert(len.bits == portal_cost(pt));
                    }
                    let improve = match dist[nb] {
                        None => true,
                        Some(old_cost) => new_cost < old_cost,
                    };
                    if improve {
                        let ghost dist1 = dist@;
                        let ghost heap1 = heap@;
                        let ghost hop1 = hop@;
                        proof {
                            assert(portal_hop(rs, cur as int, kk, nb as int));
                            assert(walk_of_cost(rs, sid as int, cur as int, cost as int, hop1[cur as int]));
                            lemma_walk_of_cost_step(rs, sid as int, cur as int, cost as int, hop1[cur as int], kk, nb as int);
                            assert(len.bits == portal_cost(pt));
                            if done[nb as int] {
                                let h2: Option<u8> = if cur == sid { Some(nb as u8) } else { hop1[cur as int] };
                                assert(walk_of_cost(rs, sid as int, nb as int, new_cost as int, h2));
                                let (p, ks) = choose|p: Seq<int>, ks: Seq<int>|
                                    #[trigger] weighted_walk(rs, p, ks) && p[0] == sid && p.last() == nb && walk_cost(rs, p, ks) == new_cost
                                        && (sid != nb ==> (h2 matches Some(x) && p[1] == x as int));
                                assert(no_cheaper_walk(rs, sid as int, nb as int, dist1[nb as int]->0 as int));
                                assert(false);
                            }
                        }
                        proof {
                            lemma_count_potential_update(dist1, nb as int, new_cost);
                            assert(nb != sid);
                        }
                        dist.set(nb, Some(new_cost));
                        heap.push((new_cost, nb as u8));
                        if cur == sid {
                            hop.set(nb, Some(nb as u8));
                            proof {
                                lemma_reachable_refl(rs, nb as int);
                                assert(region_step(rs, sid as int, nb as int)) by {
                                    assert(rs[cur as int]->0.portals@[kk].next_region.0 == nb);
                                }
                            }
                        } else {
                            match hop[cur] {
                                Some(h) => {
                                    hop.set(nb, Some(h));
                                    proof {
                                        assert(region_step(rs, cur as int, nb as int)) by {
                                            assert(rs[cur as int]->0.portals@[kk].next_region.0 == nb);
                                        }
                                        lemma_reachable_step(rs, h as int, cur as int, nb as int);
                                    }
                                },
                                None => {},
                            }
                        }
                        proof {
                            assert forall|j: int| 0 <= j < heap@.len() implies {
                                let e = #[trigger] heap@[j];
                                &&& (e.1 as int) < MAX_REGIONS
                                &&& (dist@[e.1 as int] matches Some(d) && d <= e.0)
                                &&& e.0 <= (count_some(dist@) - 1) * EDGE_COST_BOUND
                            } by {
                                if j < heap1.len() {
                                    assert(heap@[j] == heap1[j]);
                                }
                            }
                            assert forall|v: int|
                                0 <= v < MAX_REGIONS && v != cur && (#[trigger] dist@[v]) is Some implies done[v] || exists|j: int|
                                    0 <= j < heap@.len() && heap@[j].1 == v && Some(#[trigger] heap@[j].0) == dist@[v] by {
                                if v == nb {
                                    assert(heap@[heap1.len() as int] == (new_cost, nb as u8));
                                } else if !done[v] {
                                    let j0 = choose|j: int| 0 <= j < heap1.len() && heap1[j].1 == v && Some(#[trigger] heap1[j].0) == dist1[v];
                                    assert(heap@[j0] == heap1[j0]);
                                }
                            }
                            assert(!done[nb as int]);
                            assert forall|v: int| 0 <= v < MAX_REGIONS implies (#[trigger] dist@[v] matches Some(d) ==> walk_of_cost(rs, sid as int, v, d as int, hop@[v])) by {
                                if v != nb {
                                    assert(dist@[v] == dist1[v]);
                                    assert(hop@[v] == hop1[v]);
                                    if dist1[v] is Some {
                                        assert(walk_of_cost(rs, sid as int, v, dist1[v]->0 as int, hop1[v]));
                                    }
                                }
                            }
                            assert forall|v: int| 0 <= v < MAX_REGIONS && #[trigger] done[v] implies dist@[v] is Some && no_cheaper_walk(rs, sid as int, v, dist@[v]->0 as int) by {
                                assert(dist@[v] == dist1[v]);
                            }
                            assert forall|v: int, k2: int|
                                0 <= v < MAX_REGIONS && #[trigger] done[v] && portal_hop(rs, v, k2, rs[v]->0.portals@[k2].next_region.0 as int) implies {
                                    let w = rs[v]->0.portals@[k2].next_region.0 as int;
                                    &&& 0 <= w < MAX_REGIONS
                                    &&& dist@[w] is Some
                                    &&& dist@[w]->0 <= dist@[v]->0 + portal_cost(#[trigger] rs[v]->0.portals@[k2])
                                } by {
                                assert(dist@[v] == dist1[v]);
                                let w = rs[v]->0.portals@[k2].next_region.0 as int;
                                assert(dist1[w] is Some);
                            }
                        }
                    }
                    k = k + 1;
                }
                proof {
                    let ghost done1 = done;
                    done = done.update(cur as int, true);
                    assert forall|w: int| region_step(rs, cur as int, w) implies 0 <= w < MAX_REGIONS && #[trigger] dist@[w] is Some by {
                        let j = choose|j: int| 0 <= j < reg.portals@.len() && (#[trigger] rs[cur as int]->0.portals@[j]).next_region.0 == w;
                        assert(dist@[reg.portals@[j].next_region.0 as int] is Some);
                    }
                    assert forall|v: int| 0 <= v < MAX_REGIONS && #[trigger] done[v] implies dist@[v] is Some && no_cheaper_walk(rs, sid as int, v, dist@[v]->0 as int) by {
                        if v != cur {
                            assert(done1[v]);
                        }
                    }
                    assert forall|v: int, k2: int|
                        0 <= v < MAX_REGIONS && #[trigger] done[v] && portal_hop(rs, v, k2, rs[v]->0.portals@[k2].next_region.0 as int) implies {
                            let w = rs[v]->0.portals@[k2].next_region.0 as int;
                            &&& 0 <= w < MAX_REGIONS
                            &&& dist@[w] is Some
                            &&& dist@[w]->0 <= dist@[v]->0 + portal_cost(#[trigger] rs[v]->0.portals@[k2])
                        } by {
                        if v == cur {
                            assert(rs[v]->0.portals@[k2] == reg.portals@[k2]);
                            assert(dist@[reg.portals@[k2].next_region.0 as int] is Some);
                        } else {
                            assert(done1[v]);
                        }
                    }
                }
            },
        }
        proof {
            assert(search_inv(rs, count as int, sid as int, dist@, hop@, heap@, done));
            assert forall|i: int| 0 <= i < dist@.len() implies (#[trigger] dist@[i] matches Some(v) ==> v >= 0) by {}
            lemma_potential_nonneg(dist@);
            assert(potential(dist@) < potential(dist0) || (potential(dist@) == potential(dist0) && heap@.len()
                < heap0.len()));
        }
    }
    proof {
        lemma_search_result(rs, count as int, sid as int, dist@, hop@, heap@, done);
    }
    hop
}

/// What a finished search from `sid` gives: first hops toward exactly the
/// reachable regions, each the first region of a least-cost walk.
proof fn lemma_search_result(
    rs: Seq<Option<Region>>,
    count: int,
    sid: int,
    dist: Seq<Option<i64>>,
    hop: Seq<Option<u8>>,
    heap: Seq<(i64, u8)>,
    done: Seq<bool>,
)
    requires
        0 <= sid < MAX_REGIONS,
        search_inv(rs, count, sid, dist, hop, heap, done),
        heap.len() == 0,
        dist_walks(rs, sid, dist, hop),
        settled_min(rs, sid, dist, done),
    ensures
        forall|v: int|
            0 <= v < MAX_REGIONS && v != sid ==> ((#[trigger] hop[v] matches Some(h) ==> region_step(rs, sid, h as int)
                && region_reachable(rs, h as int, v) && least_cost_first(rs, sid, v, h as int)) && (region_reachable(rs, sid, v)
                ==> hop[v] is Some)),
{
    assert forall|u: int| 0 <= u < MAX_REGIONS && (#[trigger] dist[u]) is Some implies done[u] by {
        if !done[u] {
            let j = choose|j: int| 0 <= j < heap.len() && heap[j].1 == u && Some(#[trigger] heap[j].0) == dist[u];
        }
    }
    assert forall|v: int| 0 <= v < MAX_REGIONS && v != sid implies ((#[trigger] hop[v] matches Some(h) ==> region_step(rs, sid, h as int)
        && region_reachable(rs, h as int, v) && least_cost_first(rs, sid, v, h as int)) && (region_reachable(rs, sid, v)
        ==> hop[v] is Some)) by {
        if region_reachable(rs, sid, v) {
            let p = choose|p: Seq<int>| #[trigger] region_walk(rs, p) && p[0] == sid && p.last() == v;
            lemma_search_closed(rs, sid, dist, done, p);
        }
        if let Some(h) = hop[v] {
            assert(dist[v] is Some);
            assert(done[v]);
            let d = dist[v]->0 as int;
            assert(walk_of_cost(rs, sid, v, d, hop[v]));
            assert(no_cheaper_walk(rs, sid, v, d));
            assert(((h as int) as u8) == h);
            assert(walk_of_cost(rs, sid, v, d, Some((h as int) as u8)));
        }
    }
}

proof fn lemma_count_zero(d: Seq<Option<i64>>)
    requires
        forall|j: int| 0 <= j < d.len() ==> !(#[trigger] d[j] is Some),
    ensures
        count_some(d) == 0,
    decreases d.len(),
{
    if d.len() > 0 {
        assert forall|j: int| 0 <= j < d.drop_last().len() implies !(#[trigger] d.drop_last()[j] is Some) by {
            assert(d.drop_last()[j] == d[j]);
        }
        lemma_count_zero(d.drop_last());
    }
}

/// What the local routing table of a cluster holds: each region routes to
/// itself; between two regions of the cluster it holds, exactly when a route
/// exists, the first region of a least-cost one (summed portal edge lengths,
/// see `least_cost_first`); every other entry is `NO_PATH`.
pub open spec fn local_routing_spec(c: &Cluster) -> bool {
    forall|i: int, j: int|
        0 <= i < MAX_REGIONS && 0 <= j < MAX_REGIONS ==> {
            let e = #[trigger] c.route_spec(i, j);
            if i >= c.region_count {
                e == NO_PATH
            } else if i == j {
                e == i
            } else if c.regions@[i] is None {
                e == NO_PATH
            } else {
                &&& (e != NO_PATH <==> region_reachable(c.regions@, i, j))
                &&& (e != NO_PATH ==> region_step(c.regions@, i, e as int) && region_reachable(
                    c.regions@,
                    e as int,
                    j,
                ))
                &&& (e != NO_PATH ==> least_cost_first(c.regions@, i, j, e as int))
            }
        }
}

/// Fills the cluster's local routing table (see `local_routing_spec`): from
/// each region, a cheapest-first search over portals weighted by edge
/// length records the first region of the route to every region it reaches.
pub fn build_local_routing_table(cluster: &mut Cluster)
    requires
        old(cluster).wf(),
        routable_regions(old(cluster).regions@, old(cluster).region_count as int),
    ensures
        final(cluster).wf(),
        final(cluster).id == old(cluster).id,
        final(cluster).regions@ == old(cluster).regions@,
        final(cluster).region_count == old(cluster).region_count,
        final(cluster).islands@ == old(cluster).islands@,
        final(cluster).island_count == old(cluster).island_count,
        final(cluster).neighbor_connectivity@ == old(cluster).neighbor_connectivity@,
        local_routing_spec(final(cluster)),
{
    let count = cluster.region_count;
    let mut k: usize = 0;
    while k < MAX_REGIONS * MAX_REGIONS
        invariant
            cluster.wf(),
            cluster.id == old(cluster).id,
            cluster.regions@ == old(cluster).regions@,
            cluster.region_count == count,
            cluster.islands@ == old(cluster).islands@,
            cluster.island_count == old(cluster).island_count,
            cluster.neighbor_connectivity@ == old(cluster).neighbor_connectivity@,
            k <= MAX_REGIONS * MAX_REGIONS,
            forall|j: int| 0 <= j < k ==> #[trigger] cluster.local_routing@[j] == NO_PATH,
        decreases MAX_REGIONS * MAX_REGIONS - k,
    {
        cluster.local_routing.set(k, NO_PATH);
        k = k + 1;
    }
    let mut i: usize = 0;
    while i < count
        invariant
            cluster.wf(),
            cluster.id == old(cluster).id,
            cluster.regions@ == old(cluster).regions@,
            cluster.region_count == count,
            cluster.islands@ == old(cluster).islands@,
            cluster.island_count == old(cluster).island_count,
            cluster.neighbor_connectivity@ == old(cluster).neighbor_connectivity@,
            i <= count,
            forall|a: int, b: int|
                0 <= a < MAX_REGIONS && 0 <= b < MAX_REGIONS ==> #[trigger] route_in(cluster.local_routing@, a, b) == if a == b && a < i {
                    a as u8
                } else {
                    NO_PATH
                },
        decreases count - i,
    {
        let ghost before = cluster.local_routing@;
        cluster.local_routing.set(i * MAX_REGIONS + i, i as u8);
        proof {
            assert forall|a: int, b: int| 0 <= a < MAX_REGIONS && 0 <= b < MAX_REGIONS implies #[trigger] route_in(cluster.local_routing@, a, b)
                == if a == b && a < i + 1 {
                a as u8
            } else {
                NO_PATH
            } by {
                if a * MAX_REGIONS + b == i * MAX_REGIONS + i {
                    lemma_flat_index(a, b, i as int, i as int);
                } else {
                    assert(route_in(before, a, b) == if a == b && a < i {
                        a as u8
                    } else {
                        NO_PATH
                    });
                }
            }
        }
        i = i + 1;
    }
    let mut start: usize = 0;
    while start < count
        invariant
            cluster.wf(),
            cluster.id == old(cluster).id,
            cluster.regions@ == old(cluster).regions@,
            cluster.region_count == count,
            cluster.islands@ == old(cluster).islands@,
            cluster.island_count == old(cluster).island_count,
            cluster.neighbor_connectivity@ == old(cluster).neighbor_connectivity@,
            routable_regions(cluster.regions@, count as int),
            start <= count,
            forall|a: int, b: int|
                0 <= a < MAX_REGIONS && 0 <= b < MAX_REGIONS && (a >= start || a == b || cluster.regions@[a] is None) ==> #[trigger] route_in(cluster.local_routing@, a, b)
                    == if a == b && a < count {
                    a as u8
                } else {
                    NO_PATH
                },
            forall|a: int, b: int|
                0 <= a < start && 0 <= b < MAX_REGIONS && a != b && cluster.regions@[a] is Some ==> {
                    let e = #[trigger] route_in(cluster.local_routing@, a, b);
                    &&& (e != NO_PATH <==> region_reachable(cluster.regions@, a, b))
                    &&& (e != NO_PATH ==> region_step(cluster.regions@, a, e as int) && region_reachable(
                        cluster.regions@,
                        e as int,
                        b,
                    ))
                    &&& (e != NO_PATH ==> least_cost_first(cluster.regions@, a, b, e as int))
                },
        decreases count - start,
    {
        if cluster.regions[start].is_some() {
            let hops = route_from(&cluster.regions, count, start);
            let mut d: usize = 0;
            while d < MAX_REGIONS
                invariant
                    cluster.wf(),
                    cluster.id == old(cluster).id,
                    cluster.regions@ == old(cluster).regions@,
                    cluster.region_count == count,
                    cluster.islands@ == old(cluster).islands@,
                    cluster.island_count == old(cluster).island_count,
                    cluster.neighbor_connectivity@ == old(cluster).neighbor_connectivity@,
                    routable_regions(cluster.regions@, count as int),
                    start < count,
                    cluster.regions@[start as int] is Some,
                    d <= MAX_REGIONS,
                    hops@.len() == MAX_REGIONS,
                    hops@[start as int] is None,
                    forall|v: int|
                        0 <= v < MAX_REGIONS && v != start ==> ((#[trigger] hops@[v] matches Some(h) ==> region_step(
                            cluster.regions@,
                            start as int,
                            h as int,
                        ) && region_reachable(cluster.regions@, h as int, v) && least_cost_first(cluster.regions@, start as int, v, h as int)) && (region_reachable(
                            cluster.regions@,
                            start as int,
                            v,
                        ) ==> hops@[v] is Some)),
                    forall|a: int, b: int|
                        0 <= a < MAX_REGIONS && 0 <= b < MAX_REGIONS && (a > start || a == b || (a == start && b >= d) || cluster.regions@[a] is None) ==> #[trigger] route_in(cluster.local_routing@, a, b)
                            == if a == b && a < count {
                            a as u8
                        } else {
                            NO_PATH
                        },
                    forall|a: int, b: int|
                        0 <= a <= start && 0 <= b < MAX_REGIONS && a != b && (a < start || b < d) && cluster.regions@[a] is Some ==> {
                            let e = #[trigger] route_in(cluster.local_routing@, a, b);
                            &&& (e != NO_PATH <==> region_reachable(cluster.regions@, a, b))
                            &&& (e != NO_PATH ==> region_step(cluster.regions@, a, e as int) && region_reachable(
                                cluster.regions@,
                                e as int,
                                b,
                            ))
                            &&& (e != NO_PATH ==> least_cost_first(cluster.regions@, a, b, e as int))
                        },
                decreases MAX_REGIONS - d,
            {
                let ghost before = cluster.local_routing@;
                if let Some(h) = hops[d] {
                    cluster.local_routing.set(start * MAX_REGIONS + d, h);
                    proof {
                        assert(h != NO_PATH) by {
                            assert(region_step(cluster.regions@, start as int, h as int));
                        }
                    }
                }
                proof {
                    assert forall|a: int, b: int| 0 <= a < MAX_REGIONS && 0 <= b < MAX_REGIONS implies #[trigger] route_in(cluster.local_routing@, a, b)
                        == if a == start && b == d && hops@[d as int] is Some {
                        hops@[d as int]->0
                    } else {
                        before[a * MAX_REGIONS + b]
                    } by {
                        if a * MAX_REGIONS + b == start * MAX_REGIONS + d {
                            lemma_flat_index(a, b, start as int, d as int);
                        }
                    }
                    assert forall|a: int, b: int|
                        0 <= a < MAX_REGIONS && 0 <= b < MAX_REGIONS && (a > start || a == b || (a == start && b >= d + 1) || cluster.regions@[a] is None) implies #[trigger] route_in(cluster.local_routing@, a, b)
                            == if a == b && a < count {
                            a as u8
                        } else {
                            NO_PATH
                        } by {
                        assert(route_in(before, a, b) == if a == b && a < count {
                            a as u8
                        } else {
                            NO_PATH
                        });
                    }
                    assert forall|a: int, b: int|
                        0 <= a <= start && 0 <= b < MAX_REGIONS && a != b && (a < start || b < d + 1) && cluster.regions@[a] is Some implies {
                            let e = #[trigger] route_in(cluster.local_routing@, a, b);
                            &&& (e != NO_PATH <==> region_reachable(cluster.regions@, a, b))
                            &&& (e != NO_PATH ==> region_step(cluster.regions@, a, e as int) && region_reachable(
                                cluster.regions@,
                                e as int,
                                b,
                            ))
                            &&& (e != NO_PATH ==> least_cost_first(cluster.regions@, a, b, e as int))
                        } by {
                        if a == start && b == d {
                            if let Some(h) = hops@[d as int] {
                                lemma_reachable_prepend(cluster.regions@, start as int, h as int, d as int);
                            }
                        } else {
                            let e0 = route_in(before, a, b);
                        }
                    }
                    if d == start {
                        assert(region_reachable(cluster.regions@, start as int, start as int)) by {
                            lemma_reachable_refl(cluster.regions@, start as int);
                        }
                    }
                }
                d = d + 1;
            }
        }
        start = start + 1;
    }
}

proof fn lemma_flat_index(a: int, b: int, c: int, d: int)
    requires
        0 <= a < 32,
        0 <= b < 32,
        0 <= c < 32,
        0 <= d < 32,
        a * 32 + b == c * 32 + d,
    ensures
        a == c,
        b == d,
{
    assert(a == c && b == d) by (nonlinear_arith)
        requires
            0 <= a < 32,
            0 <= b < 32,
            0 <= c < 32,
            0 <= d < 32,
            a * 32 + b == c * 32 + d,
    ;
}

/// Connects the regions of a cluster and fills its local routing table.
pub fn build_region_connectivity(cluster: &mut Cluster)
    requires
        old(cluster).wf(),
        regions_in_range(old(cluster).regions@, old(cluster).region_count as int),
        forall|i: int| 0 <= i < MAX_REGIONS && (#[trigger] old(cluster).regions@[i]) is Some ==> old(cluster).regions@[i]->0.id.0 == i && old(cluster).regions@[i]->0.portals@.len() == 0 && i < old(cluster).region_count,
    ensures
        final(cluster).wf(),
        final(cluster).id == old(cluster).id,
        final(cluster).region_count == old(cluster).region_count,
        final(cluster).islands@ == old(cluster).islands@,
        final(cluster).island_count == old(cluster).island_count,
        final(cluster).neighbor_connectivity@ == old(cluster).neighbor_connectivity@,
        forall|r: int|
            0 <= r < old(cluster).region_count ==> with_partner_portals(
                old(cluster).regions@,
                old(cluster).region_count as int,
                r,
                #[trigger] final(cluster).regions@[r],
            ),
        forall|r: int|
            old(cluster).region_count <= r < MAX_REGIONS ==> #[trigger] final(cluster).regions@[r] == old(cluster).regions@[r],
        local_routing_spec(final(cluster)),
{
    find_region_portals(cluster);
    proof {
        let regs = cluster.regions@;
        let old_regs = old(cluster).regions@;
        let count = cluster.region_count as int;
        assert forall|i: int| 0 <= i < MAX_REGIONS && (#[trigger] regs[i]) is Some implies regs[i]->0.id.0 == i by {
            if i < count {
                assert(with_partner_portals(old_regs, count, i, regs[i]));
            }
        }
        assert forall|i: int, k: int|
            0 <= i < MAX_REGIONS && regs[i] is Some && 0 <= k < regs[i]->0.portals@.len() implies {
                let pt = #[trigger] regs[i]->0.portals@[k];
                &&& pt.next_region.0 < count
                &&& pt.edge.start.in_range()
                &&& pt.edge.end.in_range()
                &&& pt.edge.axis_aligned()
            } by {
            assert(i < count);
            assert(with_partner_portals(old_regs, count, i, regs[i]));
            lemma_partner_portals_ok(old_regs, count, i, count);
        }
    }
    build_local_routing_table(cluster);
}

/// The portals found for a region lead to lower-numbered-than-`count`
/// regions across axis-aligned edges in range.
pub(crate) proof fn lemma_partner_portals_ok(regs: Seq<Option<Region>>, count: int, r: int, upto: int)
    requires
        regs.len() == MAX_REGIONS,
        0 <= count <= MAX_REGIONS,
        0 <= r < count,
        upto <= count,
        regs[r] is Some,
        regions_in_range(regs, count),
        forall|i: int| 0 <= i < MAX_REGIONS && (#[trigger] regs[i]) is Some ==> regs[i]->0.id.0 == i,
    ensures
        forall|k: int| 0 <= k < partner_portals(regs, r, upto).len() ==> {
            let pt = #[trigger] partner_portals(regs, r, upto)[k];
            &&& pt.next_region.0 < count
            &&& pt.edge.start.in_range()
            &&& pt.edge.end.in_range()
            &&& pt.edge.axis_aligned()
        },
    decreases upto,
{
    if upto > 0 {
        lemma_partner_portals_ok(regs, count, r, upto - 1);
        let p = upto - 1;
        if p != r && regs[p] is Some && portal_between(regs, r, p) is Some {
            let a = if r < p { regs[r]->0.vertices@ } else { regs[p]->0.vertices@ };
            let b = if r < p { regs[p]->0.vertices@ } else { regs[r]->0.vertices@ };
            let e = shared_edge_of(a, b);
            assert(shared_edge_spec(a, b, e)) by {
                lemma_shared_edge_exists(a, b);
            }
            let seg = e->0;
            let (i, j) = choose|i: int, j: int|
                #![trigger edge_overlap(a, b, i, j)]
                0 <= i < a.len() && 0 <= j < b.len() && edge_overlap(a, b, i, j) == Some(seg) && forall|i2: int, j2: int|
                    0 <= i2 < a.len() && 0 <= j2 < b.len() && pair_before(i2, j2, i, j) ==> #[trigger] edge_overlap(
                        a,
                        b,
                        i2,
                        j2,
                    ) is None;
            let ea = poly_edge(a, i);
            let eb = poly_edge(b, j);
            lemma_overlap_in_range(ea.0, ea.1, eb.0, eb.1);
            let prev = partner_portals(regs, r, upto - 1);
            assert forall|k: int| 0 <= k < partner_portals(regs, r, upto).len() implies {
                let pt = #[trigger] partner_portals(regs, r, upto)[k];
                &&& pt.next_region.0 < count
                &&& pt.edge.start.in_range()
                &&& pt.edge.end.in_range()
                &&& pt.edge.axis_aligned()
            } by {
                if k < prev.len() {
                    assert(partner_portals(regs, r, upto)[k] == prev[k]);
                } else {
                    let pt = portal_between(regs, r, p)->0;
                    assert(partner_portals(regs, r, upto)[k] == pt);
                    assert(pt.edge == seg);
                    assert(regs[p]->0.id.0 == p);
                    assert(pt.next_region == regs[p]->0.id);
                }
            }
        } else {
            assert(partner_portals(regs, r, upto) == partner_portals(regs, r, upto - 1));
        }
    }
}

/// Some result always meets `shared_edge_spec`.
proof fn lemma_shared_edge_exists(a: Seq<FixedVec2>, b: Seq<FixedVec2>)
    ensures
        shared_edge_spec(a, b, shared_edge_of(a, b)),
{
    if exists|i: int, j: int| 0 <= i < a.len() && 0 <= j < b.len() && #[trigger] edge_overlap(a, b, i, j) is Some {
        let (wi, wj) = choose|i: int, j: int| 0 <= i < a.len() && 0 <= j < b.len() && #[trigger] edge_overlap(a, b, i, j) is Some;
        let (i0, j0) = lemma_first_overlap(a, b, wi, wj);
        assert(shared_edge_spec(a, b, edge_overlap(a, b, i0, j0)));
    } else {
        assert(shared_edge_spec(a, b, None));
    }
}

/// The first overlapping pair in row-major order, given one that overlaps.
proof fn lemma_first_overlap(a: Seq<FixedVec2>, b: Seq<FixedVec2>, ie: int, je: int) -> (r: (int, int))
    requires
        0 <= ie < a.len(),
        0 <= je < b.len(),
        edge_overlap(a, b, ie, je) is Some,
    ensures
        0 <= r.0 < a.len(),
        0 <= r.1 < b.len(),
        edge_overlap(a, b, r.0, r.1) is Some,
        forall|i2: int, j2: int|
            0 <= i2 < a.len() && 0 <= j2 < b.len() && pair_before(i2, j2, r.0, r.1) ==> #[trigger] edge_overlap(a, b, i2, j2) is None,
    decreases a.len(),
{
    assert(a.len() * b.len() >= 0) by (nonlinear_arith);
    lemma_first_overlap_from(a, b, 0, ie, je)
}

proof fn lemma_first_overlap_from(a: Seq<FixedVec2>, b: Seq<FixedVec2>, k: int, ie: int, je: int) -> (r: (int, int))
    requires
        0 <= k,
        0 <= ie < a.len(),
        0 <= je < b.len(),
        edge_overlap(a, b, ie, je) is Some,
        forall|t: int| 0 <= t < k ==> #[trigger] edge_overlap(a, b, t / (b.len() as int), t % (b.len() as int)) is None,
        k <= a.len() * b.len(),
    ensures
        0 <= r.0 < a.len(),
        0 <= r.1 < b.len(),
        edge_overlap(a, b, r.0, r.1) is Some,
        forall|i2: int, j2: int|
            0 <= i2 < a.len() && 0 <= j2 < b.len() && pair_before(i2, j2, r.0, r.1) ==> #[trigger] edge_overlap(a, b, i2, j2) is None,
    decreases a.len() * b.len() - k,
{
    let bl = b.len() as int;
    assert(bl > 0);
    if k == a.len() * b.len() {
        let t = ie * bl + je;
        assert(0 <= t < k) by (nonlinear_arith)
            requires
                t == ie * bl + je,
                0 <= ie < a.len(),
                0 <= je < bl,
                k == a.len() * bl,
        ;
        assert(t / bl == ie && t % bl == je) by (nonlinear_arith)
            requires
                t == ie * bl + je,
                0 <= je < bl,
        ;
        assert(edge_overlap(a, b, t / bl, t % bl) is None);
        (ie, je)
    } else {
        let i = k / bl;
        let j = k % bl;
        assert(0 <= i < a.len() && 0 <= j < bl) by (nonlinear_arith)
            requires
                0 <= k < a.len() * bl,
                bl > 0,
                i == k / bl,
                j == k % bl,
        ;
        if edge_overlap(a, b, i, j) is Some {
            assert forall|i2: int, j2: int|
                0 <= i2 < a.len() && 0 <= j2 < b.len() && pair_before(i2, j2, i, j) implies #[trigger] edge_overlap(a, b, i2, j2) is None by {
                let t = i2 * bl + j2;
                assert(0 <= t < k && t / bl == i2 && t % bl == j2) by (nonlinear_arith)
                    requires
                        0 <= j2 < bl,
                        0 <= i2,
                        pair_before(i2, j2, i, j),
                        i == k / bl,
                        j == k % bl,
                        t == i2 * bl + j2,
                        0 <= k,
                        bl > 0,
                {
                    assert(k == i * bl + j);
                }
                assert(edge_overlap(a, b, t / bl, t % bl) is None);
            }
            (i, j)
        } else {
            lemma_first_overlap_from(a, b, k + 1, ie, je)
        }
    }
}

} // verus!
