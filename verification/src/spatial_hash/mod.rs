//! Staggered multi-resolution spatial hash: for each size class of
//! entities, two grids offset by half a cell, each entity stored in the one
//! whose cell centre lies nearer.
pub mod grid;
pub mod query;

use vstd::prelude::*;
use crate::fixed::{FixedNum, FixedVec2, ONE_BITS, length_squared_spec, fixed_div_spec};
use crate::spatial_hash::grid::{
    StaggeredGrid,
    SizeClass,
    class_wf,
    grid_args_ok,
    insert_result,
    count_non_empty,
    lemma_count_non_empty_nonneg,
    swap_result,
    remove_result,
    GRID_LIMIT,
    rebuild_result,
    compact_result,
    total_len,
    lemma_total_len_push,
    lemma_total_len_empty,
};

verus! {

/// Where an entity is stored in the spatial hash.
#[derive(Debug, Clone, Copy, PartialEq, Eq, Structural)]
pub struct OccupiedCell {
    pub size_class: u8,
    /// 0 for grid A, 1 for grid B.
    pub grid_offset: u8,
    pub col: usize,
    pub row: usize,
    /// Arena slot the entity was written to.
    pub vec_idx: usize,
}

/// Size classes of staggered grid pairs, each serving entities up to a
/// radius.
pub struct SpatialHash {
    size_classes: Vec<SizeClass>,
    radius_to_class: Vec<(FixedNum, u8)>,
    map_width: FixedNum,
    map_height: FixedNum,
}

/// Index of the first class whose largest radius is at least `radius`;
/// the last class where there is none.
pub open spec fn classify_spec(radii: Seq<(FixedNum, u8)>, radius: FixedNum, k: int) -> int
    decreases radii.len() - k,
{
    if k >= radii.len() {
        radii.len() - 1
    } else if radius.bits <= radii[k].0.bits {
        radii[k].1 as int
    } else {
        classify_spec(radii, radius, k + 1)
    }
}

/// Squared distance from `pos` to `p`.
pub open spec fn dist_sq(pos: FixedVec2, p: FixedVec2) -> int {
    length_squared_spec(pos.x.bits - p.x.bits, pos.y.bits - p.y.bits)
}

/// 0 where `pos` lies nearer the centre of its cell in grid A than in grid
/// B, else 1; with those cells.
pub open spec fn nearer_grid(sc: &SizeClass, pos: FixedVec2) -> (u8, (int, int)) {
    let ca = sc.grid_a.pos_to_cell_spec(pos);
    let cb = sc.grid_b.pos_to_cell_spec(pos);
    if dist_sq(pos, sc.grid_a.cell_center_spec(ca.0, ca.1)) < dist_sq(pos, sc.grid_b.cell_center_spec(cb.0, cb.1)) {
        (0, ca)
    } else {
        (1, cb)
    }
}

/// The other grid's offset flag.
pub open spec fn other_offset(offset: u8) -> u8 {
    if offset == 0 {
        1
    } else {
        0
    }
}

/// The grid of `sc` with the given offset flag.
pub open spec fn grid_of(sc: &SizeClass, offset: u8) -> StaggeredGrid {
    if offset == 0 {
        sc.grid_a
    } else {
        sc.grid_b
    }
}

/// `new` is `old` with the grid `offset` replaced by `g`.
pub open spec fn with_grid(old: &SizeClass, new: &SizeClass, offset: u8, g: StaggeredGrid) -> bool {
    &&& new.cell_size == old.cell_size
    &&& if offset == 0 {
        new.grid_a == g && new.grid_b == old.grid_b
    } else {
        new.grid_b == g && new.grid_a == old.grid_a
    }
}


/// `new` is class `old` after inserting `entity` into cell `(col, row)` of
/// grid `offset` with result `slot`, one more entity counted.
pub open spec fn class_inserted(old: &SizeClass, new: &SizeClass, offset: u8, col: int, row: int, entity: u64, slot: usize) -> bool {
    &&& new.cell_size == old.cell_size
    &&& new.entity_count == old.entity_count + 1
    &&& insert_result(grid_of(old, offset), grid_of(new, offset), col, row, entity, slot)
    &&& grid_of(new, other_offset(offset)) == grid_of(old, other_offset(offset))
}

/// Every class of `h` may take one more entity.
pub open spec fn room_for_one(h: &SpatialHash) -> bool {
    forall|i: int|
        0 <= i < h.classes().len() ==> {
            let sc = #[trigger] h.classes()[i];
            &&& sc.entity_count < usize::MAX
            &&& sc.grid_a.entity_total() < usize::MAX
            &&& sc.grid_b.entity_total() < usize::MAX
        }
}

/// `occ` names a class of `h` and a cell of its grids.
pub open spec fn occupied_ok(h: &SpatialHash, occ: OccupiedCell) -> bool {
    &&& (occ.size_class as int) < h.classes().len()
    &&& occ.grid_offset <= 1
    &&& (occ.col as int) < h.classes()[occ.size_class as int].grid_a.dims().0
    &&& (occ.row as int) < h.classes()[occ.size_class as int].grid_a.dims().1
}


/// `new` is `old` after `remove(entity, occ)` returned `r`.
pub open spec fn hash_removed(old: &SpatialHash, new: &SpatialHash, entity: u64, occ: OccupiedCell, r: Option<bool>) -> bool {
    let k = occ.size_class as int;
    let sc = old.classes()[k];
    let nsc = new.classes()[k];
    let off = occ.grid_offset;
    &&& new.wf()
    &&& new.map_size() == old.map_size()
    &&& new.radii() == old.radii()
    &&& new.classes() == old.classes().update(k, nsc)
    &&& nsc.cell_size == sc.cell_size
    &&& remove_result(grid_of(&sc, off), grid_of(&nsc, off), occ.col as int, occ.row as int, entity, r)
    &&& grid_of(&nsc, other_offset(off)) == grid_of(&sc, other_offset(off))
    &&& nsc.entity_count == if r is Some { sc.entity_count - 1 } else { sc.entity_count as int }
}

/// `new` is `old` after `insert_into_cell(entity, occ)` returned `slot`.
pub open spec fn hash_inserted(old: &SpatialHash, new: &SpatialHash, entity: u64, occ: OccupiedCell, slot: usize) -> bool {
    let k = occ.size_class as int;
    &&& new.wf()
    &&& new.map_size() == old.map_size()
    &&& new.radii() == old.radii()
    &&& new.classes() == old.classes().update(k, new.classes()[k])
    &&& class_inserted(&old.classes()[k], &new.classes()[k], occ.grid_offset, occ.col as int, occ.row as int, entity, slot)
}

/// Grid and cell an entity at `pos` stored at `occ` should move to: the
/// other grid of its class, where its cell there has the strictly nearer
/// centre.
pub open spec fn should_update_spec(h: &SpatialHash, pos: FixedVec2, occ: OccupiedCell) -> Option<(u8, usize, usize)> {
    let sc = h.classes()[occ.size_class as int];
    let off = occ.grid_offset;
    let cur = grid_of(&sc, off);
    let opp = grid_of(&sc, other_offset(off));
    let oc = opp.pos_to_cell_spec(pos);
    if dist_sq(pos, opp.cell_center_spec(oc.0, oc.1)) < dist_sq(pos, cur.cell_center_spec(occ.col as int, occ.row as int)) {
        Some((other_offset(off), oc.0 as usize, oc.1 as usize))
    } else {
        None
    }
}

/// What the move check answers, stated over the grids themselves: with the
/// entity filed in cell `(occ.col, occ.row)` of grid A (offset 0) or grid B
/// (otherwise) of its class, no move exactly when the centre of that stored
/// cell is at least as near `pos` as the centre of the cell holding `pos`
/// in the other grid; a move goes to that other grid and that cell.
pub open spec fn should_update_law(h: &SpatialHash, pos: FixedVec2, occ: OccupiedCell, r: Option<(u8, usize, usize)>) -> bool {
    let sc = h.classes()[occ.size_class as int];
    let stored = if occ.grid_offset == 0 { sc.grid_a } else { sc.grid_b };
    let other = if occ.grid_offset == 0 { sc.grid_b } else { sc.grid_a };
    let here = stored.cell_center_spec(occ.col as int, occ.row as int);
    let cell = other.pos_to_cell_spec(pos);
    let there = other.cell_center_spec(cell.0, cell.1);
    let d_here = length_squared_spec(pos.x.bits - here.x.bits, pos.y.bits - here.y.bits);
    let d_there = length_squared_spec(pos.x.bits - there.x.bits, pos.y.bits - there.y.bits);
    &&& (r is None <==> d_there >= d_here)
    &&& (r matches Some((g, c, rw)) ==> g == (if occ.grid_offset == 0 { 1u8 } else { 0u8 }) && c == cell.0 as usize && rw
        == cell.1 as usize)
}

/// The move check obeys `should_update_law` for every entity and position.
pub proof fn law_should_update(h: &SpatialHash, pos: FixedVec2, occ: OccupiedCell)
    ensures
        should_update_law(h, pos, occ, should_update_spec(h, pos, occ)),
{
}

/// An entity to place: its bits, position and radius.
pub type Placed = (u64, FixedVec2, FixedNum);

/// Where an entity of `radius` at `pos` goes in `h`: its class, its grid,
/// and the row-major index of its cell there.
pub open spec fn placement(h: &SpatialHash, pos: FixedVec2, radius: FixedNum) -> (int, u8, int) {
    let k = classify_spec(h.radii(), radius, 0);
    let sc = h.classes()[k];
    let (off, cell) = nearer_grid(&sc, pos);
    (k, off, cell.1 * sc.grid_a.dims().0 + cell.0)
}

/// The entities among the first `n` of `ents`, in order, that go to cell `c`
/// of grid `g` of class `k`.
pub open spec fn bucket(h: &SpatialHash, ents: Seq<Placed>, k: int, g: u8, c: int, n: int) -> Seq<u64>
    decreases n,
{
    if n <= 0 {
        Seq::empty()
    } else {
        let prev = bucket(h, ents, k, g, c, n - 1);
        let (e, pos, radius) = ents[n - 1];
        if placement(h, pos, radius) == (k, g, c) {
            prev.push(e)
        } else {
            prev
        }
    }
}

/// Number of the first `n` entities of `ents` that go to grid `g` of class
/// `k`.
pub open spec fn placed_count(h: &SpatialHash, ents: Seq<Placed>, k: int, g: u8, n: int) -> int
    decreases n,
{
    if n <= 0 {
        0
    } else {
        let (e, pos, radius) = ents[n - 1];
        let (pk, pg, pc) = placement(h, pos, radius);
        placed_count(h, ents, k, g, n - 1) + if pk == k && pg == g { 1int } else { 0int }
    }
}

/// `lists` holds, for each cell of class `k`'s grids, the bucket of grid `g`.
pub open spec fn lists_match(lists: Seq<Vec<u64>>, h: &SpatialHash, ents: Seq<Placed>, k: int, g: u8, n: int) -> bool {
    &&& lists.len() == h.classes()[k].grid_a.ranges().len()
    &&& forall|c: int| 0 <= c < lists.len() ==> (#[trigger] lists[c])@ == bucket(h, ents, k, g, c, n)
}

/// Class `nsc` is class `osc` with its grids rebuilt from `la` and `lb`.
pub open spec fn class_rebuilt(osc: SizeClass, nsc: SizeClass, la: Seq<Vec<u64>>, lb: Seq<Vec<u64>>) -> bool {
    &&& nsc.cell_size == osc.cell_size
    &&& rebuild_result(osc.grid_a, nsc.grid_a, la)
    &&& rebuild_result(osc.grid_b, nsc.grid_b, lb)
}

/// Every entity's position lies in range.
pub open spec fn placed_ok(ents: Seq<Placed>) -> bool {
    forall|i: int|
        0 <= i < ents.len() ==> {
            let (e, pos, radius) = #[trigger] ents[i];
            pos.in_range()
        }
}

/// An entity with the cell it is stored in: its bits, position, radius and
/// `OccupiedCell`.
pub type Stored = (u64, FixedVec2, FixedNum, OccupiedCell);

/// The grid flag that an `OccupiedCell` names: grid A for offset 0, grid B
/// for any other.
pub open spec fn occ_grid(occ: OccupiedCell) -> u8 {
    if occ.grid_offset == 0 {
        0
    } else {
        1
    }
}

/// Whether `occ` names cell `c` of grid `g` of class `k` in `h`.
pub open spec fn occ_names(h: &SpatialHash, occ: OccupiedCell, k: int, g: u8, c: int) -> bool {
    &&& occ.size_class == k
    &&& occ_grid(occ) == g
    &&& occ.row * h.classes()[k].grid_a.dims().0 + occ.col == c
}

/// The entities among the first `n` of `ents`, in order, whose stored cell
/// is cell `c` of grid `g` of class `k`.
pub open spec fn stored_bucket(h: &SpatialHash, ents: Seq<Stored>, k: int, g: u8, c: int, n: int) -> Seq<u64>
    decreases n,
{
    if n <= 0 {
        Seq::empty()
    } else {
        let prev = stored_bucket(h, ents, k, g, c, n - 1);
        let (e, pos, radius, occ) = ents[n - 1];
        if occ_names(h, occ, k, g, c) {
            prev.push(e)
        } else {
            prev
        }
    }
}

/// Number of the first `n` entities of `ents` stored in grid `g` of class
/// `k`.
pub open spec fn stored_count(ents: Seq<Stored>, k: int, g: u8, n: int) -> int
    decreases n,
{
    if n <= 0 {
        0
    } else {
        let (e, pos, radius, occ) = ents[n - 1];
        stored_count(ents, k, g, n - 1) + if occ.size_class == k && occ_grid(occ) == g { 1int } else { 0int }
    }
}

/// `lists` holds, for each cell of class `k`'s grids, the stored bucket of
/// grid `g`.
pub open spec fn stored_lists_match(lists: Seq<Vec<u64>>, h: &SpatialHash, ents: Seq<Stored>, k: int, g: u8, n: int) -> bool {
    &&& lists.len() == h.classes()[k].grid_a.ranges().len()
    &&& forall|c: int| 0 <= c < lists.len() ==> (#[trigger] lists[c])@ == stored_bucket(h, ents, k, g, c, n)
}

/// Every stored cell names a class of `h` and a cell of its grids.
pub open spec fn stored_ok(h: &SpatialHash, ents: Seq<Stored>) -> bool {
    forall|i: int|
        0 <= i < ents.len() ==> {
            let (e, pos, radius, occ) = #[trigger] ents[i];
            &&& (occ.size_class as int) < h.classes().len()
            &&& occ.row * h.classes()[occ.size_class as int].grid_a.dims().0 + occ.col < h.classes()[occ.size_class as int].grid_a.ranges().len()
        }
}

impl SpatialHash {
    /// The size classes.
    pub closed spec fn classes(&self) -> Seq<SizeClass> {
        self.size_classes@
    }

    /// Largest radius served by each class, with its index.
    pub closed spec fn radii(&self) -> Seq<(FixedNum, u8)> {
        self.radius_to_class@
    }

    /// Width and height of the map.
    pub closed spec fn map_size(&self) -> (FixedNum, FixedNum) {
        (self.map_width, self.map_height)
    }

    /// Each class's grids are well formed, and each class has its radius
    /// entry, in order.
    pub closed spec fn wf(&self) -> bool {
        &&& self.size_classes@.len() == self.radius_to_class@.len()
        &&& self.size_classes@.len() <= 256
        &&& forall|i: int| 0 <= i < self.size_classes@.len() ==> class_wf(#[trigger] &self.size_classes@[i])
        &&& forall|i: int| 0 <= i < self.radius_to_class@.len() ==> (#[trigger] self.radius_to_class@[i]).1 == i
    }

    /// A spatial hash over a map of the given size with one class per cell
    /// size; the class of cell size `c` serves entities of radius up to
    /// `c / radius_to_cell_ratio`. Each grid's arena holds `capacity`
    /// slots; `incremental` selects in-place updates with headroom.
    pub fn new(
        map_width: FixedNum,
        map_height: FixedNum,
        cell_sizes: &Vec<FixedNum>,
        radius_to_cell_ratio: FixedNum,
        capacity: usize,
        incremental: bool,
    ) -> (r: SpatialHash)
        requires
            cell_sizes@.len() <= 256,
            forall|i: int|
                0 <= i < cell_sizes@.len() ==> grid_args_ok(
                    map_width,
                    map_height,
                    #[trigger] cell_sizes@[i],
                    FixedVec2 { x: FixedNum { bits: 0 }, y: FixedNum { bits: 0 } },
                ),
            0 < radius_to_cell_ratio.bits,
        ensures
            r.wf(),
            r.map_size() == (map_width, map_height),
            r.classes().len() == cell_sizes@.len(),
            forall|i: int|
                0 <= i < cell_sizes@.len() ==> {
                    let sc = #[trigger] r.classes()[i];
                    &&& sc.cell_size == cell_sizes@[i]
                    &&& sc.entity_count == 0
                    &&& sc.grid_a.storage().len() == 0 && sc.grid_b.storage().len() == 0
                    &&& sc.grid_a.capacity() == capacity && sc.grid_a.incremental() == incremental
                },
            forall|i: int|
                0 <= i < cell_sizes@.len() ==> (#[trigger] r.radii()[i]).0.bits == fixed_div_spec(
                    cell_sizes@[i].bits as int,
                    radius_to_cell_ratio.bits as int,
                ),
    {
        let mut size_classes: Vec<SizeClass> = Vec::new();
        let mut radius_to_class: Vec<(FixedNum, u8)> = Vec::new();
        let mut i: usize = 0;
        while i < cell_sizes.len()
            invariant
                i <= cell_sizes@.len(),
                cell_sizes@.len() <= 256,
                0 < radius_to_cell_ratio.bits,
                forall|j: int|
                    0 <= j < cell_sizes@.len() ==> grid_args_ok(
                        map_width,
                        map_height,
                        #[trigger] cell_sizes@[j],
                        FixedVec2 { x: FixedNum { bits: 0 }, y: FixedNum { bits: 0 } },
                    ),
                size_classes@.len() == i,
                radius_to_class@.len() == i,
                forall|j: int| 0 <= j < i ==> class_wf(#[trigger] &size_classes@[j]),
                forall|j: int| 0 <= j < i ==> (#[trigger] radius_to_class@[j]).1 == j,
                forall|j: int|
                    0 <= j < i ==> {
                        let sc = #[trigger] size_classes@[j];
                        &&& sc.cell_size == cell_sizes@[j]
                        &&& sc.entity_count == 0
                        &&& sc.grid_a.storage().len() == 0 && sc.grid_b.storage().len() == 0
                        &&& sc.grid_a.capacity() == capacity && sc.grid_a.incremental() == incremental
                    },
                forall|j: int|
                    0 <= j < i ==> (#[trigger] radius_to_class@[j]).0.bits == fixed_div_spec(
                        cell_sizes@[j].bits as int,
                        radius_to_cell_ratio.bits as int,
                    ),
            decreases cell_sizes@.len() - i,
        {
            let cs = cell_sizes[i];
            size_classes.push(SizeClass::with_capacity(map_width, map_height, cs, capacity, incremental));
            let max_radius = fixed_div_positive(cs, radius_to_cell_ratio);
            radius_to_class.push((max_radius, i as u8));
            i = i + 1;
        }
        SpatialHash { size_classes, radius_to_class, map_width, map_height }
    }


    /// Inserts `entity` at `pos` into the class that `radius` selects, in
    /// whichever of its grids has the nearer cell centre (grid B on a tie),
    /// and returns where it went.
    pub fn insert(&mut self, entity: u64, pos: FixedVec2, radius: FixedNum) -> (r: OccupiedCell)
        requires
            old(self).wf(),
            old(self).classes().len() > 0,
            pos.in_range(),
            room_for_one(old(self)),
        ensures
            final(self).wf(),
            final(self).map_size() == old(self).map_size(),
            final(self).radii() == old(self).radii(),
            ({
                let k = classify_spec(old(self).radii(), radius, 0);
                let sc = old(self).classes()[k];
                let (off, cell) = nearer_grid(&sc, pos);
                &&& r.size_class == k
                &&& r.grid_offset == off
                &&& r.col == cell.0
                &&& r.row == cell.1
                &&& final(self).classes() == old(self).classes().update(k, final(self).classes()[k])
                &&& class_inserted(&sc, &final(self).classes()[k], off, cell.0, cell.1, entity, r.vec_idx)
            }),
    {
        let k = self.classify_entity(radius);
        let ku = k as usize;
        let ghost old_classes = self.size_classes@;
        let mut sc = self.size_classes.remove(ku);
        proof {
            assert(sc == old_classes[ku as int]);
            assert(class_wf(&sc));
        }
        let (col_a, row_a) = sc.grid_a.pos_to_cell(pos);
        let center_a = sc.grid_a.cell_center(col_a, row_a);
        let dist_a = pos.sub(center_a).length_squared();
        let (col_b, row_b) = sc.grid_b.pos_to_cell(pos);
        let center_b = sc.grid_b.cell_center(col_b, row_b);
        let dist_b = pos.sub(center_b).length_squared();
        proof {
            lemma_cell_index_fits(&sc.grid_a, col_a as int, row_a as int);
            lemma_cell_index_fits(&sc.grid_b, col_b as int, row_b as int);
        }
        let (grid_offset, col, row, storage_idx) = if dist_a.lt(dist_b) {
            let idx = sc.grid_a.insert_entity(col_a, row_a, entity);
            (0u8, col_a, row_a, idx)
        } else {
            let idx = sc.grid_b.insert_entity(col_b, row_b, entity);
            (1u8, col_b, row_b, idx)
        };
        sc.entity_count = sc.entity_count + 1;
        self.size_classes.insert(ku, sc);
        proof {
            assert(self.size_classes@ =~= old_classes.update(ku as int, sc));
            assert forall|i: int| 0 <= i < self.size_classes@.len() implies class_wf(#[trigger] &self.size_classes@[i]) by {
                if i != ku {
                    assert(self.size_classes@[i] == old_classes[i]);
                }
            }
        }
        OccupiedCell { size_class: k, grid_offset, col, row, vec_idx: storage_idx }
    }

    /// Removes `entity` from the cell `occupied` names, marking its slot, and
    /// counts one entity fewer in the class when it was found there.
    pub fn remove(&mut self, entity: u64, occupied: &OccupiedCell) -> (r: Option<bool>)
        requires
            old(self).wf(),
            occupied_ok(old(self), *occupied),
            grid_of(&old(self).classes()[occupied.size_class as int], occupied.grid_offset).holds_at(
                occupied.col as int,
                occupied.row as int,
                entity,
            ) ==> old(self).classes()[occupied.size_class as int].entity_count > 0 && grid_of(
                &old(self).classes()[occupied.size_class as int],
                occupied.grid_offset,
            ).entity_total() > 0,
        ensures
            hash_removed(old(self), final(self), entity, *occupied, r),
    {
        let ku = occupied.size_class as usize;
        let ghost old_classes = self.size_classes@;
        let mut sc = self.size_classes.remove(ku);
        proof {
            assert(sc == old_classes[ku as int]);
            lemma_cell_index_fits(&sc.grid_a, occupied.col as int, occupied.row as int);
        }
        let removed = if occupied.grid_offset == 0 {
            sc.grid_a.remove_entity(occupied.col, occupied.row, entity)
        } else {
            sc.grid_b.remove_entity(occupied.col, occupied.row, entity)
        };
        if removed.is_some() {
            sc.entity_count = sc.entity_count - 1;
        }
        self.size_classes.insert(ku, sc);
        proof {
            assert(self.size_classes@ =~= old_classes.update(ku as int, sc));
            assert forall|i: int| 0 <= i < self.size_classes@.len() implies class_wf(#[trigger] &self.size_classes@[i]) by {
                if i != ku {
                    assert(self.size_classes@[i] == old_classes[i]);
                }
            }
        }
        removed
    }

    /// The grid and cell to move an entity at `pos` to, where it now lies
    /// nearer the centre of its cell in the other grid of its class than
    /// the centre of the cell `occupied` names; `None` otherwise.
    pub fn should_update(&self, pos: FixedVec2, occupied: &OccupiedCell) -> (r: Option<(u8, usize, usize)>)
        requires
            self.wf(),
            occupied_ok(self, *occupied),
            pos.in_range(),
        ensures
            r == should_update_spec(self, pos, *occupied),
            should_update_law(self, pos, *occupied, r),
    {
        let sc = &self.size_classes[occupied.size_class as usize];
        proof {
            assert(class_wf(sc));
        }
        let current_center = if occupied.grid_offset == 0 {
            sc.grid_a.cell_center(occupied.col, occupied.row)
        } else {
            sc.grid_b.cell_center(occupied.col, occupied.row)
        };
        let (opp_col, opp_row) = if occupied.grid_offset == 0 {
            sc.grid_b.pos_to_cell(pos)
        } else {
            sc.grid_a.pos_to_cell(pos)
        };
        let opposite_center = if occupied.grid_offset == 0 {
            sc.grid_b.cell_center(opp_col, opp_row)
        } else {
            sc.grid_a.cell_center(opp_col, opp_row)
        };
        let dist_current = pos.sub(current_center).length_squared();
        let dist_opposite = pos.sub(opposite_center).length_squared();
        if dist_opposite.lt(dist_current) {
            let opposite_offset: u8 = if occupied.grid_offset == 0 { 1 } else { 0 };
            Some((opposite_offset, opp_col, opp_row))
        } else {
            None
        }
    }

    /// Inserts `entity` into the cell `new_occupied` names and counts one
    /// more entity in its class; the arena slot it took.
    pub fn insert_into_cell(&mut self, entity: u64, new_occupied: &OccupiedCell) -> (r: usize)
        requires
            old(self).wf(),
            occupied_ok(old(self), *new_occupied),
            room_for_one(old(self)),
        ensures
            hash_inserted(old(self), final(self), entity, *new_occupied, r),
    {
        let ku = new_occupied.size_class as usize;
        let ghost old_classes = self.size_classes@;
        let mut sc = self.size_classes.remove(ku);
        proof {
            assert(sc == old_classes[ku as int]);
            lemma_cell_index_fits(&sc.grid_a, new_occupied.col as int, new_occupied.row as int);
        }
        let storage_idx = if new_occupied.grid_offset == 0 {
            sc.grid_a.insert_entity(new_occupied.col, new_occupied.row, entity)
        } else {
            sc.grid_b.insert_entity(new_occupied.col, new_occupied.row, entity)
        };
        sc.entity_count = sc.entity_count + 1;
        self.size_classes.insert(ku, sc);
        proof {
            assert(self.size_classes@ =~= old_classes.update(ku as int, sc));
            assert forall|i: int| 0 <= i < self.size_classes@.len() implies class_wf(#[trigger] &self.size_classes@[i]) by {
                if i != ku {
                    assert(self.size_classes@[i] == old_classes[i]);
                }
            }
        }
        storage_idx
    }

    /// Empties every class.
    pub fn clear(&mut self)
        requires
            old(self).wf(),
        ensures
            final(self).wf(),
            final(self).map_size() == old(self).map_size(),
            final(self).radii() == old(self).radii(),
            final(self).classes().len() == old(self).classes().len(),
            forall|i: int|
                0 <= i < final(self).classes().len() ==> {
                    let sc = #[trigger] final(self).classes()[i];
                    &&& sc.cell_size == old(self).classes()[i].cell_size
                    &&& sc.entity_count == 0
                    &&& sc.grid_a.storage().len() == 0 && sc.grid_b.storage().len() == 0
                    &&& sc.grid_a.entity_total() == 0 && sc.grid_b.entity_total() == 0
                },
    {
        let n = self.size_classes.len();
        let ghost old_classes = self.size_classes@;
        let mut i: usize = 0;
        while i < n
            invariant
                n == self.size_classes@.len(),
                n == old_classes.len(),
                self.radius_to_class@ == old(self).radius_to_class@,
                self.map_width == old(self).map_width && self.map_height == old(self).map_height,
                old_classes == old(self).size_classes@,
                old(self).wf(),
                i <= n,
                forall|j: int| 0 <= j < n ==> class_wf(#[trigger] &self.size_classes@[j]),
                forall|j: int| i <= j < n ==> #[trigger] self.size_classes@[j] == old_classes[j],
                forall|j: int|
                    0 <= j < i ==> {
                        let sc = #[trigger] self.size_classes@[j];
                        &&& sc.cell_size == old_classes[j].cell_size
                        &&& sc.entity_count == 0
                        &&& sc.grid_a.storage().len() == 0 && sc.grid_b.storage().len() == 0
                        &&& sc.grid_a.entity_total() == 0 && sc.grid_b.entity_total() == 0
                    },
            decreases n - i,
        {
            let ghost before = self.size_classes@;
            let mut sc = self.size_classes.remove(i);
            proof {
                assert(sc == before[i as int]);
            }
            sc.clear();
            self.size_classes.insert(i, sc);
            proof {
                assert(self.size_classes@ =~= before.update(i as int, sc));
                assert forall|j: int| 0 <= j < n implies class_wf(#[trigger] &self.size_classes@[j]) by {
                    if j != i {
                        assert(self.size_classes@[j] == before[j]);
                    }
                }
            }
            i = i + 1;
        }
    }

    /// Compacts both grids of class `k`.
    pub fn compact_class(&mut self, k: usize)
        requires
            old(self).wf(),
            k < old(self).classes().len(),
        ensures
            final(self).wf(),
            final(self).map_size() == old(self).map_size(),
            final(self).radii() == old(self).radii(),
            final(self).classes() == old(self).classes().update(k as int, final(self).classes()[k as int]),
            final(self).classes()[k as int].cell_size == old(self).classes()[k as int].cell_size,
            final(self).classes()[k as int].entity_count == old(self).classes()[k as int].entity_count,
            compact_result(old(self).classes()[k as int].grid_a, final(self).classes()[k as int].grid_a),
            compact_result(old(self).classes()[k as int].grid_b, final(self).classes()[k as int].grid_b),
    {
        let ghost old_classes = self.size_classes@;
        let mut sc = self.size_classes.remove(k);
        proof {
            assert(sc == old_classes[k as int]);
        }
        sc.compact();
        self.size_classes.insert(k, sc);
        proof {
            assert(self.size_classes@ =~= old_classes.update(k as int, sc));
            assert forall|i: int| 0 <= i < self.size_classes@.len() implies class_wf(#[trigger] &self.size_classes@[i]) by {
                if i != k {
                    assert(self.size_classes@[i] == old_classes[i]);
                }
            }
        }
    }

    /// Whether some grid of some class gives cells headroom.
    pub fn uses_incremental_updates(&self) -> (r: bool)
        ensures
            r == exists|i: int|
                0 <= i < self.classes().len() && ((#[trigger] self.classes()[i]).grid_a.incremental() || self.classes()[i].grid_b.incremental()),
    {
        let mut i: usize = 0;
        while i < self.size_classes.len()
            invariant
                i <= self.size_classes@.len(),
                forall|j: int| 0 <= j < i ==> !(#[trigger] self.size_classes@[j]).grid_a.incremental() && !self.size_classes@[j].grid_b.incremental(),
            decreases self.size_classes@.len() - i,
        {
            if self.size_classes[i].grid_a.is_incremental() || self.size_classes[i].grid_b.is_incremental() {
                proof {
                    assert(self.classes()[i as int] == self.size_classes@[i as int]);
                }
                return true;
            }
            i = i + 1;
        }
        false
    }


    /// Whether some grid of some class needs a rebuild.
    pub fn should_rebuild(&self) -> (r: bool)
        ensures
            r == exists|i: int|
                0 <= i < self.classes().len() && ((#[trigger] self.classes()[i]).grid_a.needs_rebuild() || self.classes()[i].grid_b.needs_rebuild()),
    {
        let mut i: usize = 0;
        while i < self.size_classes.len()
            invariant
                i <= self.size_classes@.len(),
                forall|j: int| 0 <= j < i ==> !(#[trigger] self.size_classes@[j]).grid_a.needs_rebuild() && !self.size_classes@[j].grid_b.needs_rebuild(),
            decreases self.size_classes@.len() - i,
        {
            if self.size_classes[i].grid_a.should_rebuild() || self.size_classes[i].grid_b.should_rebuild() {
                proof {
                    assert(self.classes()[i as int] == self.size_classes@[i as int]);
                }
                return true;
            }
            i = i + 1;
        }
        false
    }

    /// Number of non-empty cells over all grids of all classes.
    pub fn non_empty_cells(&self) -> (r: usize)
        requires
            occupied_before(self.classes(), self.classes().len() as int) <= usize::MAX,
        ensures
            r == occupied_before(self.classes(), self.classes().len() as int),
    {
        let mut n: usize = 0;
        let mut i: usize = 0;
        while i < self.size_classes.len()
            invariant
                i <= self.size_classes@.len(),
                n == occupied_before(self.size_classes@, i as int),
                occupied_before(self.size_classes@, self.size_classes@.len() as int) <= usize::MAX,
            decreases self.size_classes@.len() - i,
        {
            proof {
                lemma_occupied_mono(self.size_classes@, i + 1, self.size_classes@.len() as int);
                let sc = self.size_classes@[i as int];
                lemma_count_non_empty_nonneg(sc.grid_a.ranges(), sc.grid_a.ranges().len() as int);
                lemma_count_non_empty_nonneg(sc.grid_b.ranges(), sc.grid_b.ranges().len() as int);
            }
            n = n + self.size_classes[i].grid_a.non_empty_cells() + self.size_classes[i].grid_b.non_empty_cells();
            i = i + 1;
        }
        n
    }

    /// Moves `entity` to the other grid of its class where `should_update`
    /// says so: removes it from its cell (marking the slot), inserts it into
    /// the new cell, and returns where it went; `None` when it stays.
    pub fn update(&mut self, entity: u64, pos: FixedVec2, occupied: &OccupiedCell) -> (r: Option<OccupiedCell>)
        requires
            old(self).wf(),
            occupied_ok(old(self), *occupied),
            pos.in_range(),
            old(self).classes()[occupied.size_class as int].entity_count > 0,
            grid_of(&old(self).classes()[occupied.size_class as int], occupied.grid_offset).entity_total() > 0,
            room_for_one(old(self)),
        ensures
            match should_update_spec(old(self), pos, *occupied) {
                None => r is None && *final(self) == *old(self),
                Some((g, c, rw)) => exists|mid: SpatialHash, removed: Option<bool>|
                    #[trigger] hash_removed(old(self), &mid, entity, *occupied, removed) && ({
                        let occ = OccupiedCell { grid_offset: g, col: c, row: rw, ..*occupied };
                        &&& r matches Some(o) && o == (OccupiedCell { vec_idx: o.vec_idx, ..occ })
                        &&& hash_inserted(&mid, final(self), entity, occ, r->0.vec_idx)
                    }),
            },
    {
        match self.should_update(pos, occupied) {
            Some((new_grid_offset, new_col, new_row)) => {
                let removed = self.remove(entity, occupied);
                let ghost mid = *self;
                let new_occ = OccupiedCell { grid_offset: new_grid_offset, col: new_col, row: new_row, ..*occupied };
                proof {
                    lemma_room_kept(old(self), &mid, *occupied, removed);
                    assert(occupied_ok(&mid, new_occ)) by {
                        let k = occupied.size_class as int;
                        assert(mid.classes()[k].grid_a.dims() == old(self).classes()[k].grid_a.dims());
                    }
                }
                let storage_idx = self.insert_into_cell(entity, &new_occ);
                proof {
                    assert(hash_removed(old(self), &mid, entity, *occupied, removed));
                }
                Some(OccupiedCell { vec_idx: storage_idx, ..new_occ })
            },
            None => None,
        }
    }

    /// As `update`, also returning what the removal returned.
    pub fn update_with_swap(&mut self, entity: u64, pos: FixedVec2, occupied: &OccupiedCell) -> (r: Option<(OccupiedCell, Option<bool>)>)
        requires
            old(self).wf(),
            occupied_ok(old(self), *occupied),
            pos.in_range(),
            old(self).classes()[occupied.size_class as int].entity_count > 0,
            grid_of(&old(self).classes()[occupied.size_class as int], occupied.grid_offset).entity_total() > 0,
            room_for_one(old(self)),
        ensures
            match should_update_spec(old(self), pos, *occupied) {
                None => r is None && *final(self) == *old(self),
                Some((g, c, rw)) => match r {
                    Some((moved, removed)) => exists|mid: SpatialHash|
                        #[trigger] hash_removed(old(self), &mid, entity, *occupied, removed) && ({
                            let occ = OccupiedCell { grid_offset: g, col: c, row: rw, ..*occupied };
                            &&& moved == (OccupiedCell { vec_idx: moved.vec_idx, ..occ })
                            &&& hash_inserted(&mid, final(self), entity, occ, moved.vec_idx)
                        }),
                    None => false,
                },
            },
    {
        match self.should_update(pos, occupied) {
            Some((new_grid_offset, new_col, new_row)) => {
                let removed = self.remove(entity, occupied);
                let ghost mid = *self;
                let new_occ = OccupiedCell { grid_offset: new_grid_offset, col: new_col, row: new_row, ..*occupied };
                proof {
                    lemma_room_kept(old(self), &mid, *occupied, removed);
                    assert(occupied_ok(&mid, new_occ)) by {
                        let k = occupied.size_class as int;
                        assert(mid.classes()[k].grid_a.dims() == old(self).classes()[k].grid_a.dims());
                    }
                }
                let storage_idx = self.insert_into_cell(entity, &new_occ);
                proof {
                    assert(hash_removed(old(self), &mid, entity, *occupied, removed));
                }
                Some((OccupiedCell { vec_idx: storage_idx, ..new_occ }, removed))
            },
            None => None,
        }
    }

    /// Each class of a well-formed hash is well formed.
    pub proof fn lemma_class_wf(&self, k: int)
        requires
            self.wf(),
            0 <= k < self.classes().len(),
        ensures
            class_wf(&self.classes()[k]),
    {
    }


    /// Entities recorded in all grids of all classes together.
    pub fn total_entries(&self) -> (r: usize)
        requires
            entries_before(self.classes(), self.classes().len() as int) <= usize::MAX,
        ensures
            r == entries_before(self.classes(), self.classes().len() as int),
    {
        let mut n: usize = 0;
        let mut i: usize = 0;
        while i < self.size_classes.len()
            invariant
                i <= self.size_classes@.len(),
                n == entries_before(self.size_classes@, i as int),
                entries_before(self.size_classes@, self.size_classes@.len() as int) <= usize::MAX,
            decreases self.size_classes@.len() - i,
        {
            proof {
                lemma_entries_mono(self.size_classes@, i + 1, self.size_classes@.len() as int);
            }
            n = n + self.size_classes[i].grid_a.total_entries() + self.size_classes[i].grid_b.total_entries();
            i = i + 1;
        }
        n
    }

    /// Width of the map.
    pub fn map_width(&self) -> (r: FixedNum)
        ensures
            r == self.map_size().0,
    {
        self.map_width
    }

    /// Height of the map.
    pub fn map_height(&self) -> (r: FixedNum)
        ensures
            r == self.map_size().1,
    {
        self.map_height
    }

    /// Number of size classes.
    pub fn num_classes(&self) -> (r: usize)
        ensures
            r == self.classes().len(),
    {
        self.size_classes.len()
    }

    /// The size classes.
    pub fn size_classes(&self) -> (r: &Vec<SizeClass>)
        ensures
            r@ == self.classes(),
    {
        &self.size_classes
    }

    /// Cell size of the first class; 2.0 where there is none.
    pub fn cell_size(&self) -> (r: FixedNum)
        ensures
            r == if self.classes().len() > 0 { self.classes()[0].cell_size } else { FixedNum { bits: 131072 } },
    {
        if self.size_classes.len() > 0 {
            self.size_classes[0].cell_size
        } else {
            FixedNum::from_bits(2 * ONE_BITS)
        }
    }

    /// Columns of the first class's grid A; zero where there is none.
    pub fn cols(&self) -> (r: usize)
        ensures
            r == if self.classes().len() > 0 { self.classes()[0].grid_a.dims().0 } else { 0 },
    {
        if self.size_classes.len() > 0 {
            self.size_classes[0].grid_a.num_cols()
        } else {
            0
        }
    }

    /// Rows of the first class's grid A; zero where there is none.
    pub fn rows(&self) -> (r: usize)
        ensures
            r == if self.classes().len() > 0 { self.classes()[0].grid_a.dims().1 } else { 0 },
    {
        if self.size_classes.len() > 0 {
            self.size_classes[0].grid_a.num_rows()
        } else {
            0
        }
    }

    /// Rebuilds both grids of class `k` from the cell lists `la` and `lb`;
    /// where `recount`, the class then counts the entities of its grids.
    fn rebuild_class(&mut self, k: usize, la: &Vec<Vec<u64>>, lb: &Vec<Vec<u64>>, recount: bool)
        requires
            old(self).wf(),
            k < old(self).classes().len(),
            total_len(la@, la@.len() as int) <= usize::MAX,
            total_len(lb@, lb@.len() as int) <= usize::MAX,
            old(self).classes()[k as int].grid_a.incremental() ==> total_len(la@, la@.len() as int)
                <= old(self).classes()[k as int].grid_a.capacity(),
            old(self).classes()[k as int].grid_b.incremental() ==> total_len(lb@, lb@.len() as int)
                <= old(self).classes()[k as int].grid_b.capacity(),
            recount ==> total_len(la@, la@.len() as int) + total_len(lb@, lb@.len() as int) <= usize::MAX,
        ensures
            final(self).wf(),
            final(self).map_size() == old(self).map_size(),
            final(self).radii() == old(self).radii(),
            final(self).classes() == old(self).classes().update(k as int, final(self).classes()[k as int]),
            class_rebuilt(old(self).classes()[k as int], final(self).classes()[k as int], la@, lb@),
            final(self).classes()[k as int].entity_count == if recount {
                total_len(la@, la@.len() as int) + total_len(lb@, lb@.len() as int)
            } else {
                old(self).classes()[k as int].entity_count as int
            },
    {
        let ghost old_classes = self.size_classes@;
        let mut sc = self.size_classes.remove(k);
        proof {
            assert(sc == old_classes[k as int]);
        }
        sc.grid_a.rebuild_with_headroom(la);
        sc.grid_b.rebuild_with_headroom(lb);
        if recount {
            sc.entity_count = sc.grid_a.total_entries() + sc.grid_b.total_entries();
        }
        self.size_classes.insert(k, sc);
        proof {
            assert(self.size_classes@ =~= old_classes.update(k as int, sc));
            assert forall|i: int| 0 <= i < self.size_classes@.len() implies class_wf(#[trigger] &self.size_classes@[i]) by {
                if i != k {
                    assert(self.size_classes@[i] == old_classes[i]);
                }
            }
        }
    }

    /// Empty cell lists for every cell of each class's grids.
    fn empty_cell_lists(&self) -> (r: (Vec<Vec<Vec<u64>>>, Vec<Vec<Vec<u64>>>))
        requires
            self.wf(),
        ensures
            r.0@.len() == self.classes().len(),
            r.1@.len() == self.classes().len(),
            forall|j: int|
                0 <= j < self.classes().len() ==> {
                    &&& (#[trigger] r.0@[j])@.len() == self.classes()[j].grid_a.ranges().len()
                    &&& forall|c: int| 0 <= c < r.0@[j]@.len() ==> (#[trigger] r.0@[j]@[c])@.len() == 0
                },
            forall|j: int|
                0 <= j < self.classes().len() ==> {
                    &&& (#[trigger] r.1@[j])@.len() == self.classes()[j].grid_a.ranges().len()
                    &&& forall|c: int| 0 <= c < r.1@[j]@.len() ==> (#[trigger] r.1@[j]@[c])@.len() == 0
                },
    {
        let mut lists_a: Vec<Vec<Vec<u64>>> = Vec::new();
        let mut lists_b: Vec<Vec<Vec<u64>>> = Vec::new();
        let mut k: usize = 0;
        while k < self.size_classes.len()
            invariant
                self.wf(),
                k <= self.classes().len(),
                lists_a@.len() == k,
                lists_b@.len() == k,
                forall|j: int|
                    0 <= j < k ==> {
                        &&& (#[trigger] lists_a@[j])@.len() == self.classes()[j].grid_a.ranges().len()
                        &&& forall|c: int| 0 <= c < lists_a@[j]@.len() ==> (#[trigger] lists_a@[j]@[c])@.len() == 0
                    },
                forall|j: int|
                    0 <= j < k ==> {
                        &&& (#[trigger] lists_b@[j])@.len() == self.classes()[j].grid_a.ranges().len()
                        &&& forall|c: int| 0 <= c < lists_b@[j]@.len() ==> (#[trigger] lists_b@[j]@[c])@.len() == 0
                    },
            decreases self.classes().len() - k,
        {
            proof {
                assert(class_wf(&self.size_classes@[k as int]));
                self.size_classes@[k as int].grid_a.lemma_dims();
            }
            let n = self.size_classes[k].grid_a.num_cols() * self.size_classes[k].grid_a.num_rows();
            let mut ca: Vec<Vec<u64>> = Vec::new();
            let mut cb: Vec<Vec<u64>> = Vec::new();
            let mut c: usize = 0;
            while c < n
                invariant
                    c <= n,
                    ca@.len() == c,
                    cb@.len() == c,
                    forall|i: int| 0 <= i < c ==> (#[trigger] ca@[i])@.len() == 0,
                    forall|i: int| 0 <= i < c ==> (#[trigger] cb@[i])@.len() == 0,
                decreases n - c,
            {
                ca.push(Vec::new());
                cb.push(Vec::new());
                c = c + 1;
            }
            lists_a.push(ca);
            lists_b.push(cb);
            k = k + 1;
        }
        (lists_a, lists_b)
    }

    /// Rebuilds every grid of every class from `entities`: each entity goes
    /// to the cell that `placement` names, each cell keeps the entities in
    /// the order given, each grid is rebuilt with headroom from its cells,
    /// and each class counts the entities of its two grids.
    pub fn rebuild_from_entity_list(&mut self, entities: &[Placed])
        requires
            old(self).wf(),
            old(self).classes().len() > 0,
            placed_ok(entities@),
            forall|k: int, g: u8|
                0 <= k < old(self).classes().len() && g <= 1 && #[trigger] grid_of(&old(self).classes()[k], g).incremental()
                    ==> placed_count(old(self), entities@, k, g, entities@.len() as int) <= grid_of(
                    &old(self).classes()[k],
                    g,
                ).capacity(),
        ensures
            final(self).wf(),
            final(self).map_size() == old(self).map_size(),
            final(self).radii() == old(self).radii(),
            final(self).classes().len() == old(self).classes().len(),
            forall|k: int|
                0 <= k < old(self).classes().len() ==> {
                    let nsc = #[trigger] final(self).classes()[k];
                    &&& nsc.entity_count == nsc.grid_a.entity_total() + nsc.grid_b.entity_total()
                    &&& exists|la: Seq<Vec<u64>>, lb: Seq<Vec<u64>>|
                        #[trigger] class_rebuilt(old(self).classes()[k], nsc, la, lb) && lists_match(
                            la,
                            old(self),
                            entities@,
                            k,
                            0,
                            entities@.len() as int,
                        ) && lists_match(lb, old(self), entities@, k, 1, entities@.len() as int)
                },
    {
        let ghost h0 = *self;
        let ghost es = entities@;
        let nclasses = self.size_classes.len();
        let (mut lists_a, mut lists_b) = self.empty_cell_lists();
        proof {
            assert forall|j: int| 0 <= j < nclasses implies {
                &&& lists_match(#[trigger] lists_a@[j]@, &h0, es, j, 0, 0)
                &&& total_len(lists_a@[j]@, lists_a@[j]@.len() as int) == placed_count(&h0, es, j, 0, 0)
            } by {
                lemma_total_len_empty(lists_a@[j]@, lists_a@[j]@.len() as int);
                assert forall|c: int| 0 <= c < lists_a@[j]@.len() implies (#[trigger] lists_a@[j]@[c])@ == bucket(&h0, es, j, 0, c, 0) by {
                    assert(lists_a@[j]@[c]@ =~= Seq::<u64>::empty());
                }
            }
            assert forall|j: int| 0 <= j < nclasses implies {
                &&& lists_match(#[trigger] lists_b@[j]@, &h0, es, j, 1, 0)
                &&& total_len(lists_b@[j]@, lists_b@[j]@.len() as int) == placed_count(&h0, es, j, 1, 0)
            } by {
                lemma_total_len_empty(lists_b@[j]@, lists_b@[j]@.len() as int);
                assert forall|c: int| 0 <= c < lists_b@[j]@.len() implies (#[trigger] lists_b@[j]@[c])@ == bucket(&h0, es, j, 1, c, 0) by {
                    assert(lists_b@[j]@[c]@ =~= Seq::<u64>::empty());
                }
            }
        }
        let n_ents = entities.len();
        let mut i: usize = 0;
        while i < entities.len()
            invariant
                *self == h0,
                h0.wf(),
                h0.classes().len() > 0,
                nclasses == h0.classes().len(),
                es == entities@,
                n_ents == es.len(),
                placed_ok(es),
                i <= es.len(),
                lists_a@.len() == nclasses,
                lists_b@.len() == nclasses,
                forall|j: int|
                    0 <= j < nclasses ==> {
                        &&& lists_match(#[trigger] lists_a@[j]@, &h0, es, j, 0, i as int)
                        &&& total_len(lists_a@[j]@, lists_a@[j]@.len() as int) == placed_count(&h0, es, j, 0, i as int)
                    },
                forall|j: int|
                    0 <= j < nclasses ==> {
                        &&& lists_match(#[trigger] lists_b@[j]@, &h0, es, j, 1, i as int)
                        &&& total_len(lists_b@[j]@, lists_b@[j]@.len() as int) == placed_count(&h0, es, j, 1, i as int)
                    },
            decreases es.len() - i,
        {
            let (e, pos, radius) = entities[i];
            proof {
                assert(es[i as int] == (e, pos, radius));
            }
            let (k, g, c) = self.place(pos, radius);
            let ghost before_a = lists_a@;
            let ghost before_b = lists_b@;
            if g == 0 {
                lists_a[k][c].push(e);
            } else {
                lists_b[k][c].push(e);
            }
            proof {
                assert forall|j: int| 0 <= j < nclasses implies {
                    &&& lists_match(#[trigger] lists_a@[j]@, &h0, es, j, 0, i + 1)
                    &&& total_len(lists_a@[j]@, lists_a@[j]@.len() as int) == placed_count(&h0, es, j, 0, i + 1)
                } by {
                    assert(lists_match(before_a[j]@, &h0, es, j, 0, i as int));
                    assert forall|cc: int| 0 <= cc < lists_a@[j]@.len() implies (#[trigger] lists_a@[j]@[cc])@ == bucket(&h0, es, j, 0, cc, i + 1) by {
                        assert(before_a[j]@[cc]@ == bucket(&h0, es, j, 0, cc, i as int));
                    }
                    if j == k && g == 0 {
                        lemma_total_len_push(before_a[j]@, lists_a@[j]@, c as int, lists_a@[j]@.len() as int);
                    } else {
                        assert(lists_a@[j]@ == before_a[j]@);
                    }
                }
                assert forall|j: int| 0 <= j < nclasses implies {
                    &&& lists_match(#[trigger] lists_b@[j]@, &h0, es, j, 1, i + 1)
                    &&& total_len(lists_b@[j]@, lists_b@[j]@.len() as int) == placed_count(&h0, es, j, 1, i + 1)
                } by {
                    assert(lists_match(before_b[j]@, &h0, es, j, 1, i as int));
                    assert forall|cc: int| 0 <= cc < lists_b@[j]@.len() implies (#[trigger] lists_b@[j]@[cc])@ == bucket(&h0, es, j, 1, cc, i + 1) by {
                        assert(before_b[j]@[cc]@ == bucket(&h0, es, j, 1, cc, i as int));
                    }
                    if j == k && g == 1 {
                        lemma_total_len_push(before_b[j]@, lists_b@[j]@, c as int, lists_b@[j]@.len() as int);
                    } else {
                        assert(lists_b@[j]@ == before_b[j]@);
                    }
                }
            }
            i = i + 1;
        }
        let mut k: usize = 0;
        while k < nclasses
            invariant
                self.wf(),
                h0.wf(),
                nclasses == h0.classes().len(),
                es == entities@,
                n_ents == es.len(),
                self.map_size() == h0.map_size(),
                self.radii() == h0.radii(),
                self.classes().len() == nclasses,
                k <= nclasses,
                lists_a@.len() == nclasses,
                lists_b@.len() == nclasses,
                forall|j: int|
                    0 <= j < nclasses ==> {
                        &&& lists_match(#[trigger] lists_a@[j]@, &h0, es, j, 0, es.len() as int)
                        &&& total_len(lists_a@[j]@, lists_a@[j]@.len() as int) == placed_count(&h0, es, j, 0, es.len() as int)
                    },
                forall|j: int|
                    0 <= j < nclasses ==> {
                        &&& lists_match(#[trigger] lists_b@[j]@, &h0, es, j, 1, es.len() as int)
                        &&& total_len(lists_b@[j]@, lists_b@[j]@.len() as int) == placed_count(&h0, es, j, 1, es.len() as int)
                    },
                forall|kk: int, g: u8|
                    0 <= kk < h0.classes().len() && g <= 1 && #[trigger] grid_of(&h0.classes()[kk], g).incremental()
                        ==> placed_count(&h0, es, kk, g, es.len() as int) <= grid_of(&h0.classes()[kk], g).capacity(),
                forall|j: int| k <= j < nclasses ==> #[trigger] self.classes()[j] == h0.classes()[j],
                forall|j: int|
                    0 <= j < k ==> {
                        let nsc = #[trigger] self.classes()[j];
                        &&& nsc.entity_count == nsc.grid_a.entity_total() + nsc.grid_b.entity_total()
                        &&& class_rebuilt(h0.classes()[j], nsc, lists_a@[j]@, lists_b@[j]@)
                    },
            decreases nclasses - k,
        {
            proof {
                lemma_placed_counts(&h0, es, k as int, es.len() as int);
                assert(grid_of(&h0.classes()[k as int], 0) == h0.classes()[k as int].grid_a);
                assert(grid_of(&h0.classes()[k as int], 1) == h0.classes()[k as int].grid_b);
                assert(lists_match(lists_a@[k as int]@, &h0, es, k as int, 0, es.len() as int));
                assert(lists_match(lists_b@[k as int]@, &h0, es, k as int, 1, es.len() as int));
            }
            self.rebuild_class(k, &lists_a[k], &lists_b[k], true);
            k = k + 1;
        }
        proof {
            assert forall|kk: int| 0 <= kk < h0.classes().len() implies {
                let nsc = #[trigger] self.classes()[kk];
                &&& nsc.entity_count == nsc.grid_a.entity_total() + nsc.grid_b.entity_total()
                &&& exists|la: Seq<Vec<u64>>, lb: Seq<Vec<u64>>|
                    #[trigger] class_rebuilt(h0.classes()[kk], nsc, la, lb) && lists_match(la, &h0, es, kk, 0, es.len() as int)
                        && lists_match(lb, &h0, es, kk, 1, es.len() as int)
            } by {
                assert(lists_match(lists_a@[kk]@, &h0, es, kk, 0, es.len() as int));
                assert(lists_match(lists_b@[kk]@, &h0, es, kk, 1, es.len() as int));
                assert(class_rebuilt(h0.classes()[kk], self.classes()[kk], lists_a@[kk]@, lists_b@[kk]@));
            }
        }
    }

    /// Rebuilds the grids of every class that holds some of `entities` from
    /// the cells their `OccupiedCell`s name, each cell keeping the entities in
    /// the order given, each grid with headroom; classes that hold none stay
    /// as they are, and no class's entity count changes.
    pub fn rebuild_all_with_headroom(&mut self, entities: &[Stored])
        requires
            old(self).wf(),
            stored_ok(old(self), entities@),
            forall|k: int, g: u8|
                0 <= k < old(self).classes().len() && g <= 1 && #[trigger] grid_of(&old(self).classes()[k], g).incremental()
                    ==> stored_count(entities@, k, g, entities@.len() as int) <= grid_of(&old(self).classes()[k], g).capacity(),
        ensures
            final(self).wf(),
            final(self).map_size() == old(self).map_size(),
            final(self).radii() == old(self).radii(),
            final(self).classes().len() == old(self).classes().len(),
            forall|k: int|
                0 <= k < old(self).classes().len() ==> {
                    let nsc = #[trigger] final(self).classes()[k];
                    let osc = old(self).classes()[k];
                    if stored_count(entities@, k, 0, entities@.len() as int) + stored_count(entities@, k, 1, entities@.len() as int) == 0 {
                        nsc == osc
                    } else {
                        &&& nsc.entity_count == osc.entity_count
                        &&& exists|la: Seq<Vec<u64>>, lb: Seq<Vec<u64>>|
                            #[trigger] class_rebuilt(osc, nsc, la, lb) && stored_lists_match(
                                la,
                                old(self),
                                entities@,
                                k,
                                0,
                                entities@.len() as int,
                            ) && stored_lists_match(lb, old(self), entities@, k, 1, entities@.len() as int)
                    }
                },
    {
        let ghost h0 = *self;
        let ghost es = entities@;
        let nclasses = self.size_classes.len();
        let (mut lists_a, mut lists_b) = self.empty_cell_lists();
        proof {
            assert forall|j: int| 0 <= j < nclasses implies {
                &&& stored_lists_match(#[trigger] lists_a@[j]@, &h0, es, j, 0, 0)
                &&& total_len(lists_a@[j]@, lists_a@[j]@.len() as int) == stored_count(es, j, 0, 0)
            } by {
                lemma_total_len_empty(lists_a@[j]@, lists_a@[j]@.len() as int);
                assert forall|c: int| 0 <= c < lists_a@[j]@.len() implies (#[trigger] lists_a@[j]@[c])@ == stored_bucket(&h0, es, j, 0, c, 0) by {
                    assert(lists_a@[j]@[c]@ =~= Seq::<u64>::empty());
                }
            }
            assert forall|j: int| 0 <= j < nclasses implies {
                &&& stored_lists_match(#[trigger] lists_b@[j]@, &h0, es, j, 1, 0)
                &&& total_len(lists_b@[j]@, lists_b@[j]@.len() as int) == stored_count(es, j, 1, 0)
            } by {
                lemma_total_len_empty(lists_b@[j]@, lists_b@[j]@.len() as int);
                assert forall|c: int| 0 <= c < lists_b@[j]@.len() implies (#[trigger] lists_b@[j]@[c])@ == stored_bucket(&h0, es, j, 1, c, 0) by {
                    assert(lists_b@[j]@[c]@ =~= Seq::<u64>::empty());
                }
            }
        }
        let n_ents = entities.len();
        let mut i: usize = 0;
        while i < entities.len()
            invariant
                *self == h0,
                h0.wf(),
                nclasses == h0.classes().len(),
                es == entities@,
                n_ents == es.len(),
                stored_ok(&h0, es),
                i <= es.len(),
                lists_a@.len() == nclasses,
                lists_b@.len() == nclasses,
                forall|j: int|
                    0 <= j < nclasses ==> {
                        &&& stored_lists_match(#[trigger] lists_a@[j]@, &h0, es, j, 0, i as int)
                        &&& total_len(lists_a@[j]@, lists_a@[j]@.len() as int) == stored_count(es, j, 0, i as int)
                    },
                forall|j: int|
                    0 <= j < nclasses ==> {
                        &&& stored_lists_match(#[trigger] lists_b@[j]@, &h0, es, j, 1, i as int)
                        &&& total_len(lists_b@[j]@, lists_b@[j]@.len() as int) == stored_count(es, j, 1, i as int)
                    },
            decreases es.len() - i,
        {
            let (e, _pos, _radius, occ) = entities[i];
            proof {
                assert(es[i as int] == (e, _pos, _radius, occ));
            }
            let k = occ.size_class as usize;
            proof {
                assert(class_wf(&h0.classes()[k as int]));
                h0.classes()[k as int].grid_a.lemma_dims();
            }
            let c = occ.row * self.size_classes[k].grid_a.num_cols() + occ.col;
            let ghost g: u8 = occ_grid(occ);
            let ghost before_a = lists_a@;
            let ghost before_b = lists_b@;
            if occ.grid_offset == 0 {
                lists_a[k][c].push(e);
            } else {
                lists_b[k][c].push(e);
            }
            proof {
                assert forall|j: int| 0 <= j < nclasses implies {
                    &&& stored_lists_match(#[trigger] lists_a@[j]@, &h0, es, j, 0, i + 1)
                    &&& total_len(lists_a@[j]@, lists_a@[j]@.len() as int) == stored_count(es, j, 0, i + 1)
                } by {
                    assert(stored_lists_match(before_a[j]@, &h0, es, j, 0, i as int));
                    assert forall|cc: int| 0 <= cc < lists_a@[j]@.len() implies (#[trigger] lists_a@[j]@[cc])@ == stored_bucket(&h0, es, j, 0, cc, i + 1) by {
                        assert(before_a[j]@[cc]@ == stored_bucket(&h0, es, j, 0, cc, i as int));
                    }
                    if j == k && g == 0 {
                        lemma_total_len_push(before_a[j]@, lists_a@[j]@, c as int, lists_a@[j]@.len() as int);
                    } else {
                        assert(lists_a@[j]@ == before_a[j]@);
                    }
                }
                assert forall|j: int| 0 <= j < nclasses implies {
                    &&& stored_lists_match(#[trigger] lists_b@[j]@, &h0, es, j, 1, i + 1)
                    &&& total_len(lists_b@[j]@, lists_b@[j]@.len() as int) == stored_count(es, j, 1, i + 1)
                } by {
                    assert(stored_lists_match(before_b[j]@, &h0, es, j, 1, i as int));
                    assert forall|cc: int| 0 <= cc < lists_b@[j]@.len() implies (#[trigger] lists_b@[j]@[cc])@ == stored_bucket(&h0, es, j, 1, cc, i + 1) by {
                        assert(before_b[j]@[cc]@ == stored_bucket(&h0, es, j, 1, cc, i as int));
                    }
                    if j == k && g == 1 {
                        lemma_total_len_push(before_b[j]@, lists_b@[j]@, c as int, lists_b@[j]@.len() as int);
                    } else {
                        assert(lists_b@[j]@ == before_b[j]@);
                    }
                }
            }
            i = i + 1;
        }
        let mut k: usize = 0;
        while k < nclasses
            invariant
                self.wf(),
                h0.wf(),
                nclasses == h0.classes().len(),
                es == entities@,
                n_ents == es.len(),
                self.map_size() == h0.map_size(),
                self.radii() == h0.radii(),
                self.classes().len() == nclasses,
                k <= nclasses,
                lists_a@.len() == nclasses,
                lists_b@.len() == nclasses,
                forall|j: int|
                    0 <= j < nclasses ==> {
                        &&& stored_lists_match(#[trigger] lists_a@[j]@, &h0, es, j, 0, es.len() as int)
                        &&& total_len(lists_a@[j]@, lists_a@[j]@.len() as int) == stored_count(es, j, 0, es.len() as int)
                    },
                forall|j: int|
                    0 <= j < nclasses ==> {
                        &&& stored_lists_match(#[trigger] lists_b@[j]@, &h0, es, j, 1, es.len() as int)
                        &&& total_len(lists_b@[j]@, lists_b@[j]@.len() as int) == stored_count(es, j, 1, es.len() as int)
                    },
                forall|kk: int, g: u8|
                    0 <= kk < h0.classes().len() && g <= 1 && #[trigger] grid_of(&h0.classes()[kk], g).incremental()
                        ==> stored_count(es, kk, g, es.len() as int) <= grid_of(&h0.classes()[kk], g).capacity(),
                forall|j: int| k <= j < nclasses ==> #[trigger] self.classes()[j] == h0.classes()[j],
                forall|j: int|
                    0 <= j < k ==> {
                        let nsc = #[trigger] self.classes()[j];
                        let osc = h0.classes()[j];
                        if stored_count(es, j, 0, es.len() as int) + stored_count(es, j, 1, es.len() as int) == 0 {
                            nsc == osc
                        } else {
                            &&& nsc.entity_count == osc.entity_count
                            &&& class_rebuilt(osc, nsc, lists_a@[j]@, lists_b@[j]@)
                        }
                    },
            decreases nclasses - k,
        {
            proof {
                lemma_stored_counts(es, k as int, es.len() as int);
                assert(grid_of(&h0.classes()[k as int], 0) == h0.classes()[k as int].grid_a);
                assert(grid_of(&h0.classes()[k as int], 1) == h0.classes()[k as int].grid_b);
                assert(stored_lists_match(lists_a@[k as int]@, &h0, es, k as int, 0, es.len() as int));
                assert(stored_lists_match(lists_b@[k as int]@, &h0, es, k as int, 1, es.len() as int));
            }
            if total_of(&lists_a[k]) + total_of(&lists_b[k]) != 0 {
                self.rebuild_class(k, &lists_a[k], &lists_b[k], false);
            }
            k = k + 1;
        }
        proof {
            assert forall|kk: int| 0 <= kk < h0.classes().len() implies {
                let nsc = #[trigger] self.classes()[kk];
                let osc = h0.classes()[kk];
                if stored_count(es, kk, 0, es.len() as int) + stored_count(es, kk, 1, es.len() as int) == 0 {
                    nsc == osc
                } else {
                    &&& nsc.entity_count == osc.entity_count
                    &&& exists|la: Seq<Vec<u64>>, lb: Seq<Vec<u64>>|
                        #[trigger] class_rebuilt(osc, nsc, la, lb) && stored_lists_match(la, &h0, es, kk, 0, es.len() as int)
                            && stored_lists_match(lb, &h0, es, kk, 1, es.len() as int)
                }
            } by {
                assert(stored_lists_match(lists_a@[kk]@, &h0, es, kk, 0, es.len() as int));
                assert(stored_lists_match(lists_b@[kk]@, &h0, es, kk, 1, es.len() as int));
                if stored_count(es, kk, 0, es.len() as int) + stored_count(es, kk, 1, es.len() as int) != 0 {
                    assert(class_rebuilt(h0.classes()[kk], self.classes()[kk], lists_a@[kk]@, lists_b@[kk]@));
                }
            }
        }
    }

    /// Where an entity of `radius` at `pos` goes, as `placement` says.
    pub fn place(&self, pos: FixedVec2, radius: FixedNum) -> (r: (usize, u8, usize))
        requires
            self.wf(),
            self.classes().len() > 0,
            pos.in_range(),
        ensures
            (r.0 as int, r.1, r.2 as int) == placement(self, pos, radius),
            r.0 < self.classes().len(),
            r.1 <= 1,
            r.2 < self.classes()[r.0 as int].grid_a.ranges().len(),
    {
        let k = self.classify_entity(radius);
        let ku = k as usize;
        let sc = &self.size_classes[ku];
        proof {
            assert(class_wf(sc));
        }
        let (col_a, row_a) = sc.grid_a.pos_to_cell(pos);
        let center_a = sc.grid_a.cell_center(col_a, row_a);
        let dist_a = pos.sub(center_a).length_squared();
        let (col_b, row_b) = sc.grid_b.pos_to_cell(pos);
        let center_b = sc.grid_b.cell_center(col_b, row_b);
        let dist_b = pos.sub(center_b).length_squared();
        proof {
            lemma_cell_index_fits(&sc.grid_a, col_a as int, row_a as int);
            lemma_cell_index_fits(&sc.grid_b, col_b as int, row_b as int);
            sc.grid_a.lemma_dims();
        }
        if dist_a.lt(dist_b) {
            (ku, 0, row_a * sc.grid_a.num_cols() + col_a)
        } else {
            (ku, 1, row_b * sc.grid_b.num_cols() + col_b)
        }
    }

    /// Index of the class serving entities of `radius`: the first whose
    /// largest radius is at least `radius`, else the last.
    pub fn classify_entity(&self, radius: FixedNum) -> (r: u8)
        requires
            self.wf(),
            self.classes().len() > 0,
        ensures
            r == classify_spec(self.radii(), radius, 0),
            r < self.classes().len(),
    {
        let mut i: usize = 0;
        while i < self.radius_to_class.len()
            invariant
                self.wf(),
                self.classes().len() > 0,
                i <= self.radius_to_class@.len(),
                classify_spec(self.radius_to_class@, radius, i as int) == classify_spec(self.radius_to_class@, radius, 0),
            decreases self.radius_to_class@.len() - i,
        {
            let (max_radius, class_idx) = self.radius_to_class[i];
            if radius.bits <= max_radius.bits {
                return class_idx;
            }
            i = i + 1;
        }
        (self.size_classes.len() - 1) as u8
    }
}

proof fn lemma_room_kept(old: &SpatialHash, mid: &SpatialHash, occ: OccupiedCell, removed: Option<bool>)
    requires
        occupied_ok(old, occ),
        room_for_one(old),
        exists|e: u64| #[trigger] hash_removed(old, mid, e, occ, removed),
    ensures
        room_for_one(mid),
{
    let e = choose|e: u64| #[trigger] hash_removed(old, mid, e, occ, removed);
    let k = occ.size_class as int;
    assert forall|i: int| 0 <= i < mid.classes().len() implies {
        let sc = #[trigger] mid.classes()[i];
        &&& sc.entity_count < usize::MAX
        &&& sc.grid_a.entity_total() < usize::MAX
        &&& sc.grid_b.entity_total() < usize::MAX
    } by {
        assert(hash_removed(old, mid, e, occ, removed));
    }
}

proof fn lemma_cell_index_fits(g: &StaggeredGrid, col: int, row: int)
    requires
        g.wf(),
        0 <= col < g.dims().0,
        0 <= row < g.dims().1,
    ensures
        row * g.dims().0 + col < g.dims().0 * g.dims().1,
        g.dims().0 * g.dims().1 <= usize::MAX,
{
    g.lemma_dims();
    assert(row * g.dims().0 + col < g.dims().0 * g.dims().1) by (nonlinear_arith)
        requires
            0 <= col < g.dims().0,
            0 <= row < g.dims().1,
    ;
}

proof fn lemma_placed_counts(h: &SpatialHash, ents: Seq<Placed>, k: int, n: int)
    requires
        0 <= n <= ents.len(),
    ensures
        0 <= placed_count(h, ents, k, 0, n),
        0 <= placed_count(h, ents, k, 1, n),
        placed_count(h, ents, k, 0, n) + placed_count(h, ents, k, 1, n) <= n,
    decreases n,
{
    if n > 0 {
        lemma_placed_counts(h, ents, k, n - 1);
    }
}

/// Number of entities in all the cell lists.
fn total_of(lists: &Vec<Vec<u64>>) -> (r: usize)
    requires
        total_len(lists@, lists@.len() as int) <= usize::MAX,
    ensures
        r == total_len(lists@, lists@.len() as int),
{
    let mut n: usize = 0;
    let mut i: usize = 0;
    while i < lists.len()
        invariant
            i <= lists@.len(),
            n == total_len(lists@, i as int),
            total_len(lists@, lists@.len() as int) <= usize::MAX,
        decreases lists@.len() - i,
    {
        proof {
            crate::spatial_hash::grid::lemma_total_len_mono(lists@, i + 1, lists@.len() as int);
        }
        n = n + lists[i].len();
        i = i + 1;
    }
    n
}

proof fn lemma_stored_counts(ents: Seq<Stored>, k: int, n: int)
    requires
        0 <= n <= ents.len(),
    ensures
        0 <= stored_count(ents, k, 0, n),
        0 <= stored_count(ents, k, 1, n),
        stored_count(ents, k, 0, n) + stored_count(ents, k, 1, n) <= n,
    decreases n,
{
    if n > 0 {
        lemma_stored_counts(ents, k, n - 1);
    }
}

/// Entities recorded in both grids of the first `k` classes.
pub open spec fn entries_before(classes: Seq<SizeClass>, k: int) -> int
    decreases k,
{
    if k <= 0 {
        0
    } else {
        entries_before(classes, k - 1) + classes[k - 1].grid_a.entity_total() + classes[k - 1].grid_b.entity_total()
    }
}

proof fn lemma_entries_mono(classes: Seq<SizeClass>, a: int, b: int)
    requires
        0 <= a <= b,
    ensures
        entries_before(classes, a) <= entries_before(classes, b),
    decreases b - a,
{
    if a < b {
        lemma_entries_mono(classes, a, b - 1);
    }
}

/// Non-empty cells in both grids of the first `k` classes.
pub open spec fn occupied_before(classes: Seq<SizeClass>, k: int) -> int
    decreases k,
{
    if k <= 0 {
        0
    } else {
        occupied_before(classes, k - 1) + count_non_empty(classes[k - 1].grid_a.ranges(), classes[k - 1].grid_a.ranges().len() as int)
            + count_non_empty(classes[k - 1].grid_b.ranges(), classes[k - 1].grid_b.ranges().len() as int)
    }
}

proof fn lemma_occupied_mono(classes: Seq<SizeClass>, a: int, b: int)
    requires
        0 <= a <= b,
    ensures
        occupied_before(classes, a) <= occupied_before(classes, b),
    decreases b - a,
{
    if a < b {
        lemma_occupied_mono(classes, a, b - 1);
        lemma_count_non_empty_nonneg(classes[b - 1].grid_a.ranges(), classes[b - 1].grid_a.ranges().len() as int);
        lemma_count_non_empty_nonneg(classes[b - 1].grid_b.ranges(), classes[b - 1].grid_b.ranges().len() as int);
    }
}

/// `a / b` for positive `a` and `b`, rounded down to the fixed-point grid.
fn fixed_div_positive(a: FixedNum, b: FixedNum) -> (r: FixedNum)
    requires
        0 < a.bits <= GRID_LIMIT,
        0 < b.bits,
    ensures
        r.bits == fixed_div_spec(a.bits as int, b.bits as int),
{
    let num: u128 = (a.bits as u128) * (ONE_BITS as u128);
    let q: u128 = num / (b.bits as u128);
    proof {
        assert(num <= 0x2_0000_0000_0000_0000) by (nonlinear_arith)
            requires
                num == (a.bits as int) * 65536,
                a.bits <= 0x2_0000_0000,
        ;
        assert(q <= num) by (nonlinear_arith)
            requires
                q == num as int / (b.bits as int),
                b.bits >= 1,
        ;
    }
    FixedNum::from_bits(q as i64)
}

} // verus!
