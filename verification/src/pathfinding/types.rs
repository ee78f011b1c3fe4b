//! Identifiers, geometry and records shared by the pathfinding modules.
use vstd::prelude::*;
use crate::fixed::{FixedNum, FixedVec2};
use crate::pathfinding::region_list::{RegionList, region_list_items};

verus! {

/// Side of a square cluster, in grid cells.
pub const CLUSTER_SIZE: usize = 25;

/// Largest number of regions a cluster holds.
pub const MAX_REGIONS: usize = 32;

/// Largest number of islands a cluster holds.
pub const MAX_ISLANDS: usize = 16;

/// Routing-table entry meaning that no route exists.
pub const NO_PATH: u8 = 255;

/// Two boundary regions belong to one island when the routed distance
/// between their centres is at most this many times their straight-line
/// distance.
pub const TORTUOSITY_THRESHOLD: i64 = 3;

/// One of the eight neighbouring directions of a cluster.
#[derive(Clone, Copy, Debug, PartialEq, Eq, Structural, Hash)]
pub enum Direction {
    North,
    South,
    East,
    West,
    NorthEast,
    NorthWest,
    SouthEast,
    SouthWest,
}

/// Index of a direction in the connectivity tables.
pub open spec fn direction_index(d: Direction) -> int {
    match d {
        Direction::North => 0,
        Direction::South => 1,
        Direction::East => 2,
        Direction::West => 3,
        Direction::NorthEast => 4,
        Direction::NorthWest => 5,
        Direction::SouthEast => 6,
        Direction::SouthWest => 7,
    }
}

impl Direction {
    /// Index of this direction in the connectivity tables.
    pub fn as_index(self) -> (r: usize)
        ensures
            r == direction_index(self),
            r < 8,
    {
        match self {
            Direction::North => 0,
            Direction::South => 1,
            Direction::East => 2,
            Direction::West => 3,
            Direction::NorthEast => 4,
            Direction::NorthWest => 5,
            Direction::SouthEast => 6,
            Direction::SouthWest => 7,
        }
    }

    /// The direction with the given table index.
    pub fn from_index(i: usize) -> (r: Direction)
        requires
            i < 8,
        ensures
            direction_index(r) == i,
    {
        if i == 0 {
            Direction::North
        } else if i == 1 {
            Direction::South
        } else if i == 2 {
            Direction::East
        } else if i == 3 {
            Direction::West
        } else if i == 4 {
            Direction::NorthEast
        } else if i == 5 {
            Direction::NorthWest
        } else if i == 6 {
            Direction::SouthEast
        } else {
            Direction::SouthWest
        }
    }

    /// All eight directions, in table order.
    pub fn all() -> (r: Vec<Direction>)
        ensures
            r@.len() == 8,
            forall|i: int| 0 <= i < 8 ==> direction_index(#[trigger] r@[i]) == i,
    {
        let mut v: Vec<Direction> = Vec::new();
        let mut i: usize = 0;
        while i < 8
            invariant
                i <= 8,
                v@.len() == i,
                forall|j: int| 0 <= j < i ==> direction_index(#[trigger] v@[j]) == j,
            decreases 8 - i,
        {
            v.push(Direction::from_index(i));
            i = i + 1;
        }
        v
    }
}

/// A grid cell.
#[derive(Clone, Copy, Debug, PartialEq, Eq, Structural, Hash)]
pub struct Node {
    pub x: usize,
    pub y: usize,
}

/// One side of a crossing between two neighbouring clusters.
#[derive(Clone, Copy, Debug)]
pub struct Portal {
    pub id: usize,
    /// Representative cell of the crossing.
    pub node: Node,
    /// First cell of the crossing.
    pub range_min: Node,
    /// Last cell of the crossing.
    pub range_max: Node,
    /// Cluster on this side of the crossing.
    pub cluster: (usize, usize),
    /// World position of the centre of `node`.
    pub world_pos: FixedVec2,
}

/// Index of a region within its cluster.
#[derive(Clone, Copy, Debug, PartialEq, Eq, Structural, Hash)]
pub struct RegionId(pub u8);

/// Index of an island within its cluster.
#[derive(Clone, Copy, Debug, PartialEq, Eq, Structural, Hash)]
pub struct IslandId(pub u8);

/// A (cluster, island) pair: a node of the inter-cluster routing graph.
#[derive(Clone, Copy, Debug, Hash)]
pub struct ClusterIslandId {
    pub cluster: (usize, usize),
    pub island: IslandId,
}

impl PartialEq for ClusterIslandId {
    fn eq(&self, other: &ClusterIslandId) -> (r: bool) {
        self.cluster.0 == other.cluster.0 && self.cluster.1 == other.cluster.1 && self.island.0
            == other.island.0
    }
}

impl vstd::std_specs::cmp::PartialEqSpecImpl for ClusterIslandId {
    open spec fn obeys_eq_spec() -> bool {
        true
    }

    open spec fn eq_spec(&self, other: &ClusterIslandId) -> bool {
        self.cluster.0 == other.cluster.0 && self.cluster.1 == other.cluster.1 && self.island.0
            == other.island.0
    }
}

impl Eq for ClusterIslandId {
}

impl ClusterIslandId {
    pub fn new(cluster: (usize, usize), island: IslandId) -> (r: ClusterIslandId)
        ensures
            r.cluster == cluster,
            r.island == island,
    {
        ClusterIslandId { cluster, island }
    }
}

/// Midpoint, in bits, of two coordinates given by their bits (rounded down).
pub open spec fn mid_bits(a: int, b: int) -> int {
    (a + b) / 2
}

/// Half of `s`, rounded toward negative infinity.
pub fn half_floor(s: i64) -> (r: i64)
    requires
        s > i64::MIN,
    ensures
        r == s as int / 2,
{
    if s >= 0 {
        s / 2
    } else {
        let t = -s;
        let q = t / 2 + t % 2;
        -q
    }
}

/// A line segment between two points.
#[derive(Clone, Copy, Debug, PartialEq, Eq, Structural)]
pub struct LineSegment {
    pub start: FixedVec2,
    pub end: FixedVec2,
}

/// Absolute value of an integer.
pub open spec fn abs_int(a: int) -> int {
    if a < 0 { -a } else { a }
}

impl LineSegment {
    /// Whether the segment is horizontal or vertical.
    pub open spec fn axis_aligned(self) -> bool {
        self.start.x == self.end.x || self.start.y == self.end.y
    }

    /// Midpoint of the segment, each coordinate rounded down.
    pub fn center(&self) -> (r: FixedVec2)
        requires
            self.start.in_range(),
            self.end.in_range(),
        ensures
            r.x.bits == mid_bits(self.start.x.bits as int, self.end.x.bits as int),
            r.y.bits == mid_bits(self.start.y.bits as int, self.end.y.bits as int),
            r.in_range(),
    {
        FixedVec2 {
            x: FixedNum { bits: half_floor(self.start.x.bits + self.end.x.bits) },
            y: FixedNum { bits: half_floor(self.start.y.bits + self.end.y.bits) },
        }
    }

    /// Length of an axis-aligned segment: the difference of the coordinates that differ.
    pub fn length(&self) -> (r: FixedNum)
        requires
            self.start.in_range(),
            self.end.in_range(),
            self.axis_aligned(),
        ensures
            r.bits == abs_int(self.end.x.bits - self.start.x.bits) + abs_int(
                self.end.y.bits - self.start.y.bits,
            ),
    {
        let dx = self.end.x.bits - self.start.x.bits;
        let dy = self.end.y.bits - self.start.y.bits;
        let ax = if dx < 0 { -dx } else { dx };
        let ay = if dy < 0 { -dy } else { dy };
        FixedNum { bits: ax + ay }
    }
}

/// An axis-aligned rectangle.
#[derive(Clone, Copy, Debug, PartialEq, Eq, Structural)]
pub struct Rect {
    pub min: FixedVec2,
    pub max: FixedVec2,
}

impl Rect {
    pub fn new(min: FixedVec2, max: FixedVec2) -> (r: Rect)
        ensures
            r.min == min,
            r.max == max,
    {
        Rect { min, max }
    }

    /// Whether `p` lies in the rectangle, borders included.
    pub open spec fn contains_spec(self, p: FixedVec2) -> bool {
        self.min.x.bits <= p.x.bits <= self.max.x.bits && self.min.y.bits <= p.y.bits
            <= self.max.y.bits
    }

    /// Whether `p` lies in the rectangle, borders included.
    pub fn contains(&self, p: FixedVec2) -> (r: bool)
        ensures
            r == self.contains_spec(p),
    {
        p.x.bits >= self.min.x.bits && p.x.bits <= self.max.x.bits && p.y.bits >= self.min.y.bits
            && p.y.bits <= self.max.y.bits
    }

    /// Centre of the rectangle, each coordinate rounded down.
    pub fn center(&self) -> (r: FixedVec2)
        requires
            self.min.in_range(),
            self.max.in_range(),
        ensures
            r.x.bits == mid_bits(self.min.x.bits as int, self.max.x.bits as int),
            r.y.bits == mid_bits(self.min.y.bits as int, self.max.y.bits as int),
            r.in_range(),
    {
        FixedVec2 {
            x: FixedNum { bits: half_floor(self.min.x.bits + self.max.x.bits) },
            y: FixedNum { bits: half_floor(self.min.y.bits + self.max.y.bits) },
        }
    }

    pub fn width(&self) -> (r: FixedNum)
        requires
            self.min.in_range(),
            self.max.in_range(),
        ensures
            r.bits == self.max.x.bits - self.min.x.bits,
    {
        FixedNum { bits: self.max.x.bits - self.min.x.bits }
    }

    pub fn height(&self) -> (r: FixedNum)
        requires
            self.min.in_range(),
            self.max.in_range(),
        ensures
            r.bits == self.max.y.bits - self.min.y.bits,
    {
        FixedNum { bits: self.max.y.bits - self.min.y.bits }
    }
}

/// A crossing from one region into a neighbouring region of the same cluster.
#[derive(Clone, Copy, Debug, PartialEq, Eq, Structural)]
pub struct RegionPortal {
    /// The edge the two regions share.
    pub edge: LineSegment,
    /// Midpoint of the edge.
    pub center: FixedVec2,
    /// The region entered.
    pub next_region: RegionId,
}

/// A convex, walkable part of a cluster, in cluster-local coordinates.
pub struct Region {
    pub id: RegionId,
    pub bounds: Rect,
    /// Corners of the region, counter-clockwise from the bottom-left.
    pub vertices: Vec<FixedVec2>,
    pub island: IslandId,
    pub portals: Vec<RegionPortal>,
    /// Whether straight-line movement inside the region may be unsafe.
    pub is_dangerous: bool,
}

/// A set of regions of one cluster that units treat as one side of the
/// cluster's obstacles.
pub struct Island {
    pub id: IslandId,
    /// Centre of the island's first region.
    pub representative: FixedVec2,
    /// Indices of the island's regions, in the order they joined it.
    pub regions: RegionList,
}

impl Island {
    /// Indices of the island's regions.
    pub open spec fn members(&self) -> Seq<u8> {
        region_list_items(self.regions)
    }
}

} // verus!
