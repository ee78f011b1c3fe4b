//! One grid of a staggered pair: cells over the map, each owning a range of
//! a shared entity arena.
use vstd::prelude::*;
use crate::fixed::{FixedNum, FixedVec2, ONE_BITS, HALF_BITS, COORD_LIMIT, floor_div_fixed, fixed_mul_spec};

verus! {

/// Bits of the placeholder entity, which marks a removed slot of the arena.
pub const PLACEHOLDER: u64 = 1;

/// Largest map extent or cell size, in bits, that the grids accept.
pub const GRID_LIMIT: i64 = 0x2_0000_0000;

/// The range of the entity arena that one cell owns.
#[derive(Debug, Clone, Copy, PartialEq, Eq, Structural)]
pub struct CellRange {
    /// First slot of the cell.
    pub start: usize,
    /// Number of slots in use.
    pub end_index: usize,
    /// Slots reserved for the cell; zero until headroom is handed out.
    pub max_index: usize,
}

impl CellRange {
    /// An empty range at slot zero with no headroom.
    pub fn new() -> (r: CellRange)
        ensures
            r == (CellRange { start: 0, end_index: 0, max_index: 0 }),
    {
        CellRange { start: 0, end_index: 0, max_index: 0 }
    }

    /// An empty range at `start` with room for `max_capacity` slots.
    pub fn with_capacity(start: usize, max_capacity: usize) -> (r: CellRange)
        ensures
            r == (CellRange { start, end_index: 0, max_index: max_capacity }),
    {
        CellRange { start, end_index: 0, max_index: max_capacity }
    }

    /// Whether no slot is in use.
    pub fn is_empty(&self) -> (r: bool)
        ensures
            r == (self.end_index == 0),
    {
        self.end_index == 0
    }

    /// Number of slots in use.
    pub fn count(&self) -> (r: usize)
        ensures
            r == self.end_index,
    {
        self.end_index
    }

    /// Reserved slots not yet in use (zero once they are all used).
    pub fn headroom(&self) -> (r: usize)
        ensures
            r == if self.max_index >= self.end_index { self.max_index - self.end_index } else { 0 },
    {
        if self.max_index >= self.end_index {
            self.max_index - self.end_index
        } else {
            0
        }
    }
}

/// A fresh range: empty, at slot zero, without headroom.
pub open spec fn range_cleared(r: CellRange) -> bool {
    r == (CellRange { start: 0, end_index: 0, max_index: 0 })
}

/// Number of whole cells of size `cs` needed to cover an extent `w`, both
/// given by their bits: the ceiling of the quotient, which is first rounded
/// down to the fixed-point grid.
pub open spec fn cells_across(w: int, cs: int) -> int {
    let q = (w * (ONE_BITS as int)) / cs;
    (q + (ONE_BITS as int) - 1) / (ONE_BITS as int)
}

/// The grid's arguments stay within the range its arithmetic accepts.
pub open spec fn grid_args_ok(map_width: FixedNum, map_height: FixedNum, cell_size: FixedNum, offset: FixedVec2) -> bool {
    &&& 0 < map_width.bits <= GRID_LIMIT
    &&& 0 < map_height.bits <= GRID_LIMIT
    &&& 0 < cell_size.bits <= GRID_LIMIT
    &&& -GRID_LIMIT <= offset.x.bits <= GRID_LIMIT
    &&& -GRID_LIMIT <= offset.y.bits <= GRID_LIMIT
    &&& (cells_across(map_width.bits as int, cell_size.bits as int) + 2) * (cells_across(map_height.bits as int, cell_size.bits as int) + 2)
        <= usize::MAX
}

/// One grid of a staggered pair, with arena storage.
#[derive(Debug, Clone)]
pub struct StaggeredGrid {
    entity_storage: Vec<u64>,
    /// The arena range of each cell, row-major.
    pub cell_ranges: Vec<CellRange>,
    pub cols: usize,
    pub rows: usize,
    cell_size: FixedNum,
    offset: FixedVec2,
    map_width: FixedNum,
    map_height: FixedNum,
    half_map_width: FixedNum,
    half_map_height: FixedNum,
    half_cell: FixedNum,
    entity_count: usize,
    storage_capacity: usize,
    /// Cells get headroom and entities move between cells in place.
    pub use_incremental_updates: bool,
}

impl StaggeredGrid {
    /// The arena.
    pub closed spec fn storage(&self) -> Seq<u64> {
        self.entity_storage@
    }

    /// The cell ranges.
    pub closed spec fn ranges(&self) -> Seq<CellRange> {
        self.cell_ranges@
    }

    /// Columns and rows.
    pub closed spec fn dims(&self) -> (int, int) {
        (self.cols as int, self.rows as int)
    }

    /// Slots the arena was made to hold.
    pub closed spec fn capacity(&self) -> nat {
        self.storage_capacity as nat
    }

    /// Entities recorded as stored.
    pub closed spec fn entity_total(&self) -> nat {
        self.entity_count as nat
    }

    /// Whether cells get headroom.
    pub closed spec fn incremental(&self) -> bool {
        self.use_incremental_updates
    }

    /// Cell size, offset, and half the map's width and height.
    pub closed spec fn geometry(&self) -> (FixedNum, FixedVec2, FixedNum, FixedNum) {
        (self.cell_size, self.offset, self.half_map_width, self.half_map_height)
    }

    /// One range per cell, at least one row and column, the geometry in
    /// range, and the arena within its capacity.
    pub closed spec fn wf(&self) -> bool {
        &&& self.cols >= 1
        &&& self.rows >= 1
        &&& self.cols * self.rows <= usize::MAX
        &&& self.cell_ranges@.len() == self.cols * self.rows
        &&& self.entity_storage@.len() <= usize::MAX
        &&& 0 < self.cell_size.bits <= GRID_LIMIT
        &&& -GRID_LIMIT <= self.offset.x.bits <= GRID_LIMIT
        &&& -GRID_LIMIT <= self.offset.y.bits <= GRID_LIMIT
        &&& 0 <= self.half_map_width.bits <= GRID_LIMIT
        &&& 0 <= self.half_map_height.bits <= GRID_LIMIT
        &&& self.half_cell.bits == HALF_BITS
        &&& self.cols * self.cell_size.bits <= 4 * GRID_LIMIT
        &&& self.rows * self.cell_size.bits <= 4 * GRID_LIMIT
        &&& forall|i: int|
            0 <= i < self.cell_ranges@.len() ==> (#[trigger] self.cell_ranges@[i]).start + self.cell_ranges@[i].end_index
                <= self.entity_storage@.len()
        &&& forall|i: int|
            0 <= i < self.cell_ranges@.len() && self.use_incremental_updates && (#[trigger] self.cell_ranges@[i]).max_index > 0
                ==> self.cell_ranges@[i].start + self.cell_ranges@[i].max_index <= self.entity_storage@.len()
    }

    /// Cell holding `pos`: its position relative to the grid's corner
    /// divided by the cell size, rounded down, clamped to the grid.
    pub open spec fn pos_to_cell_spec(&self, pos: FixedVec2) -> (int, int) {
        let (cs, off, hw, hh) = self.geometry();
        let x = pos.x.bits + hw.bits - off.x.bits;
        let y = pos.y.bits + hh.bits - off.y.bits;
        (clamp_cell(x / (cs.bits as int), self.dims().0), clamp_cell(y / (cs.bits as int), self.dims().1))
    }

    /// Centre of cell `(col, row)` in world coordinates.
    pub open spec fn cell_center_spec(&self, col: int, row: int) -> FixedVec2 {
        let (cs, off, hw, hh) = self.geometry();
        FixedVec2 {
            x: FixedNum { bits: (fixed_mul_spec(col * ONE_BITS + HALF_BITS, cs.bits as int) + off.x.bits - hw.bits) as i64 },
            y: FixedNum { bits: (fixed_mul_spec(row * ONE_BITS + HALF_BITS, cs.bits as int) + off.y.bits - hh.bits) as i64 },
        }
    }


    /// Entities in the slots cell `idx` uses.
    pub open spec fn cell_contents(&self, idx: int) -> Seq<u64> {
        let r = self.ranges()[idx];
        self.storage().subrange(r.start as int, r.start + r.end_index)
    }

    /// Inserts `entity` into cell `(col, row)` and returns its arena slot;
    /// `usize::MAX` where the cell does not exist or has no room. With
    /// headroom handed out (incremental mode and a reserved range), the
    /// entity takes the cell's next reserved slot. Otherwise it is appended
    /// to the arena, if the arena has room, and the cell's range starts there
    /// when the cell was empty, or grows by one when the cell ends the arena;
    /// a cell elsewhere is first copied to the arena's end (its old slots
    /// then belong to no cell), so no other cell's entities are taken in.
    pub fn insert_entity(&mut self, col: usize, row: usize, entity: u64) -> (r: usize)
        requires
            old(self).wf(),
            row * old(self).dims().0 + col <= usize::MAX,
            old(self).entity_total() < usize::MAX,
        ensures
            insert_result(*old(self), *final(self), col as int, row as int, entity, r),
    {
        let cell_idx = row * self.cols + col;
        if cell_idx >= self.cell_ranges.len() {
            return usize::MAX;
        }
        let range = self.cell_ranges[cell_idx];
        proof {
            assert(range == self.cell_ranges@[cell_idx as int]);
            assert(range.start + range.end_index <= self.entity_storage@.len());
        }
        if self.use_incremental_updates && range.max_index > 0 {
            if range.end_index >= range.max_index {
                return usize::MAX;
            }
            let storage_idx = range.start + range.end_index;
            let ghost before = *self;
            self.entity_storage.set(storage_idx, entity);
            self.cell_ranges.set(cell_idx, CellRange { end_index: range.end_index + 1, ..range });
            self.entity_count = self.entity_count + 1;
            proof {
                assert forall|i: int| 0 <= i < self.cell_ranges@.len() implies (#[trigger] self.cell_ranges@[i]).start
                    + self.cell_ranges@[i].end_index <= self.entity_storage@.len() by {
                    if i != cell_idx {
                        assert(self.cell_ranges@[i] == before.cell_ranges@[i]);
                    }
                }
                assert forall|i: int| 0 <= i < self.cell_ranges@.len() && self.use_incremental_updates && (#[trigger] self.cell_ranges@[i]).max_index > 0 implies self.cell_ranges@[i].start
                    + self.cell_ranges@[i].max_index <= self.entity_storage@.len() by {
                    if i != cell_idx {
                        assert(self.cell_ranges@[i] == before.cell_ranges@[i]);
                    }
                }
            }
            storage_idx
        } else {
            let len = self.entity_storage.len();
            if len >= self.storage_capacity {
                return usize::MAX;
            }
            let ghost before = *self;
            if range.end_index == 0 || range.start + range.end_index == len {
                self.entity_storage.push(entity);
                self.entity_count = self.entity_count + 1;
                if range.end_index == 0 {
                    self.cell_ranges.set(cell_idx, CellRange { start: len, end_index: 1, ..range });
                } else {
                    self.cell_ranges.set(cell_idx, CellRange { end_index: range.end_index + 1, ..range });
                }
                proof {
                    assert forall|i: int| 0 <= i < self.cell_ranges@.len() implies (#[trigger] self.cell_ranges@[i]).start
                        + self.cell_ranges@[i].end_index <= self.entity_storage@.len() by {
                        if i != cell_idx {
                            assert(self.cell_ranges@[i] == before.cell_ranges@[i]);
                        }
                    }
                    assert forall|i: int| 0 <= i < self.cell_ranges@.len() && self.use_incremental_updates && (#[trigger] self.cell_ranges@[i]).max_index > 0 implies self.cell_ranges@[i].start
                        + self.cell_ranges@[i].max_index <= self.entity_storage@.len() by {
                        if i != cell_idx {
                            assert(self.cell_ranges@[i] == before.cell_ranges@[i]);
                        }
                    }
                }
                len
            } else {
                if self.storage_capacity - len < range.end_index + 1 {
                    return usize::MAX;
                }
                let ghost moved = before.cell_contents(cell_idx as int);
                let mut k: usize = 0;
                while k < range.end_index
                    invariant
                        k <= range.end_index,
                        range == before.cell_ranges@[cell_idx as int],
                        range.start + range.end_index <= len,
                        len == before.entity_storage@.len(),
                        moved == before.entity_storage@.subrange(range.start as int, range.start + range.end_index),
                        self.entity_storage@ == before.entity_storage@ + moved.take(k as int),
                        self.cell_ranges@ == before.cell_ranges@,
                        self.entity_count == before.entity_count,
                        self.storage_capacity == before.storage_capacity,
                        self.use_incremental_updates == before.use_incremental_updates,
                        self.cols == before.cols,
                        self.rows == before.rows,
                        self.cell_size == before.cell_size,
                        self.offset == before.offset,
                        self.map_width == before.map_width,
                        self.map_height == before.map_height,
                        self.half_map_width == before.half_map_width,
                        self.half_map_height == before.half_map_height,
                        self.half_cell == before.half_cell,
                    decreases range.end_index - k,
                {
                    let e = self.entity_storage[range.start + k];
                    proof {
                        assert(e == moved[k as int]);
                        assert(moved.take(k + 1int) =~= moved.take(k as int).push(e));
                    }
                    self.entity_storage.push(e);
                    k = k + 1;
                }
                proof {
                    assert(moved.take(range.end_index as int) =~= moved);
                }
                self.entity_storage.push(entity);
                self.entity_count = self.entity_count + 1;
                self.cell_ranges.set(cell_idx, CellRange { start: len, end_index: range.end_index + 1, ..range });
                proof {
                    assert(self.entity_storage@ =~= before.entity_storage@ + moved.push(entity));
                    assert forall|i: int| 0 <= i < self.cell_ranges@.len() implies (#[trigger] self.cell_ranges@[i]).start
                        + self.cell_ranges@[i].end_index <= self.entity_storage@.len() by {
                        if i != cell_idx {
                            assert(self.cell_ranges@[i] == before.cell_ranges@[i]);
                        }
                    }
                    assert forall|i: int| 0 <= i < self.cell_ranges@.len() && self.use_incremental_updates && (#[trigger] self.cell_ranges@[i]).max_index > 0 implies self.cell_ranges@[i].start
                        + self.cell_ranges@[i].max_index <= self.entity_storage@.len() by {
                        if i != cell_idx {
                            assert(self.cell_ranges@[i] == before.cell_ranges@[i]);
                        }
                    }
                }
                len + range.end_index
            }
        }
    }

    /// The entities in the slots cell `(col, row)` uses; none for a cell
    /// outside the grid. Removed slots hold `PLACEHOLDER`.
    pub fn get_cell_entities(&self, col: usize, row: usize) -> (r: Vec<u64>)
        requires
            self.wf(),
            row * self.dims().0 + col <= usize::MAX,
        ensures
            r@ == if self.cell_index(col as int, row as int) < self.ranges().len() {
                self.cell_contents(self.cell_index(col as int, row as int))
            } else {
                Seq::<u64>::empty()
            },
    {
        let cell_idx = row * self.cols + col;
        let mut out: Vec<u64> = Vec::new();
        if cell_idx >= self.cell_ranges.len() {
            return out;
        }
        let range = self.cell_ranges[cell_idx];
        proof {
            assert(range == self.cell_ranges@[cell_idx as int]);
            assert(range.start + range.end_index <= self.entity_storage@.len());
        }
        let end = range.start + range.end_index;
        let mut i: usize = range.start;
        while i < end
            invariant
                self.wf(),
                cell_idx < self.cell_ranges@.len(),
                range == self.cell_ranges@[cell_idx as int],
                end == range.start + range.end_index,
                range.start <= i <= end,
                end <= self.entity_storage@.len(),
                out@ == self.entity_storage@.subrange(range.start as int, i as int),
            decreases end - i,
        {
            out.push(self.entity_storage[i]);
            proof {
                assert(out@ =~= self.entity_storage@.subrange(range.start as int, i + 1));
            }
            i = i + 1;
        }
        out
    }

    /// Empties the arena and every cell, dropping all headroom; the
    /// capacity stays.
    pub fn clear(&mut self)
        requires
            old(self).wf(),
        ensures
            final(self).wf(),
            final(self).dims() == old(self).dims(),
            final(self).geometry() == old(self).geometry(),
            final(self).capacity() == old(self).capacity(),
            final(self).incremental() == old(self).incremental(),
            final(self).storage().len() == 0,
            final(self).entity_total() == 0,
            final(self).ranges().len() == old(self).ranges().len(),
            forall|i: int| 0 <= i < final(self).ranges().len() ==> range_cleared(#[trigger] final(self).ranges()[i]),
    {
        self.entity_storage.clear();
        self.entity_count = 0;
        let ghost g0 = *self;
        let n = self.cell_ranges.len();
        let mut i: usize = 0;
        while i < n
            invariant
                n == self.cell_ranges@.len(),
                self.entity_storage@.len() == 0,
                self.entity_count == 0,
                self.cols == g0.cols,
                self.rows == g0.rows,
                self.cell_size == g0.cell_size,
                self.offset == g0.offset,
                self.half_map_width == g0.half_map_width,
                self.half_map_height == g0.half_map_height,
                self.half_cell == g0.half_cell,
                self.storage_capacity == g0.storage_capacity,
                self.use_incremental_updates == g0.use_incremental_updates,
                n == g0.cols * g0.rows,
                g0.cols >= 1 && g0.rows >= 1 && g0.cols * g0.rows <= usize::MAX,
                0 < g0.cell_size.bits <= GRID_LIMIT,
                -GRID_LIMIT <= g0.offset.x.bits <= GRID_LIMIT,
                -GRID_LIMIT <= g0.offset.y.bits <= GRID_LIMIT,
                0 <= g0.half_map_width.bits <= GRID_LIMIT,
                0 <= g0.half_map_height.bits <= GRID_LIMIT,
                g0.half_cell.bits == HALF_BITS,
                g0.cols * g0.cell_size.bits <= 4 * GRID_LIMIT,
                g0.rows * g0.cell_size.bits <= 4 * GRID_LIMIT,
                i <= n,
                forall|j: int| 0 <= j < i ==> range_cleared(#[trigger] self.cell_ranges@[j]),
            decreases n - i,
        {
            self.cell_ranges.set(i, CellRange { start: 0, end_index: 0, max_index: 0 });
            i = i + 1;
        }
    }

    /// Number of entities recorded as stored.
    pub fn total_entries(&self) -> (r: usize)
        ensures
            r == self.entity_total(),
    {
        self.entity_count
    }

    /// Number of arena slots in use or left behind by removals.
    pub fn storage_len(&self) -> (r: usize)
        ensures
            r == self.storage().len(),
    {
        self.entity_storage.len()
    }

    /// Slots the arena was made to hold.
    pub fn storage_capacity(&self) -> (r: usize)
        ensures
            r == self.capacity(),
    {
        self.storage_capacity
    }


    /// Slot of the first copy of `entity` among the slots cell `idx` uses.
    pub open spec fn first_slot_of(&self, idx: int, entity: u64, i: int) -> bool {
        let rg = self.ranges()[idx];
        &&& rg.start <= i < rg.start + rg.end_index
        &&& self.storage()[i] == entity
        &&& forall|j: int| rg.start <= j < i ==> #[trigger] self.storage()[j] != entity
    }

    /// Whether cell `idx` of the grid uses a slot holding `entity`.
    pub open spec fn cell_holds(&self, idx: int, entity: u64) -> bool {
        let rg = self.ranges()[idx];
        exists|i: int| rg.start <= i < rg.start + rg.end_index && #[trigger] self.storage()[i] == entity
    }

    /// Whether cell `(col, row)` exists and uses a slot holding `entity`.
    pub open spec fn holds_at(&self, col: int, row: int, entity: u64) -> bool {
        self.cell_index(col, row) < self.ranges().len() && self.cell_holds(self.cell_index(col, row), entity)
    }

    /// Marks the first slot of cell `(col, row)` holding `entity` as removed
    /// (the cell keeps its range) and returns `Some(true)`; `None` where the
    /// cell does not exist or does not hold the entity.
    pub fn remove_entity(&mut self, col: usize, row: usize, entity: u64) -> (r: Option<bool>)
        requires
            old(self).wf(),
            row * old(self).dims().0 + col <= usize::MAX,
            old(self).holds_at(col as int, row as int, entity) ==> old(self).entity_total() > 0,
        ensures
            remove_result(*old(self), *final(self), col as int, row as int, entity, r),
    {
        let cell_idx = row * self.cols + col;
        if cell_idx >= self.cell_ranges.len() {
            return None;
        }
        let range = self.cell_ranges[cell_idx];
        proof {
            assert(range == self.cell_ranges@[cell_idx as int]);
            assert(range.start + range.end_index <= self.entity_storage@.len());
        }
        if range.end_index == 0 {
            return None;
        }
        let end = range.start + range.end_index;
        if end > self.entity_storage.len() {
            return None;
        }
        let mut i: usize = range.start;
        while i < end
            invariant
                self.wf(),
                cell_idx < self.cell_ranges@.len(),
                range == self.cell_ranges@[cell_idx as int],
                end == range.start + range.end_index,
                range.start <= i <= end,
                end <= self.entity_storage@.len(),
                *self == *old(self),
                old(self).holds_at(col as int, row as int, entity) ==> old(self).entity_total() > 0,
                cell_idx == row * old(self).cols + col,
                forall|j: int| range.start <= j < i ==> #[trigger] self.entity_storage@[j] != entity,
            decreases end - i,
        {
            if self.entity_storage[i] == entity {
                proof {
                    assert(old(self).cell_index(col as int, row as int) == cell_idx);
                    assert(old(self).storage()[i as int] == entity);
                    assert(old(self).holds_at(col as int, row as int, entity));
                }
                let ghost before = *self;
                self.entity_storage.set(i, PLACEHOLDER);
                self.entity_count = self.entity_count - 1;
                proof {
                    assert(old(self).cell_index(col as int, row as int) == cell_idx);
                    assert(before == *old(self));
                    assert(before.ranges()[cell_idx as int] == range);
                    assert(before.storage()[i as int] == entity);
                    assert(before.first_slot_of(cell_idx as int, entity, i as int));
                    assert(old(self).first_slot_of(cell_idx as int, entity, i as int));
                    assert(old(self).cell_holds(cell_idx as int, entity));
                    assert(self.storage() =~= old(self).storage().update(i as int, PLACEHOLDER));
                }
                return Some(true);
            }
            i = i + 1;
        }
        None
    }

    /// Removes the first copy of `entity` from cell `(col, row)` by moving
    /// the cell's last entity into its slot and shrinking the cell by one;
    /// whether the entity was found there.
    pub fn remove_entity_swap(&mut self, col: usize, row: usize, entity: u64) -> (r: bool)
        requires
            old(self).wf(),
            row * old(self).dims().0 + col <= usize::MAX,
            old(self).holds_at(col as int, row as int, entity) ==> old(self).entity_total() > 0,
        ensures
            swap_result(*old(self), *final(self), col as int, row as int, entity, r),
    {
        let cell_idx = row * self.cols + col;
        if cell_idx >= self.cell_ranges.len() {
            return false;
        }
        let range = self.cell_ranges[cell_idx];
        proof {
            assert(range == self.cell_ranges@[cell_idx as int]);
            assert(range.start + range.end_index <= self.entity_storage@.len());
        }
        if range.end_index == 0 {
            return false;
        }
        let cell_start = range.start;
        let cell_end = range.start + range.end_index;
        let mut i: usize = cell_start;
        while i < cell_end
            invariant
                self.wf(),
                cell_idx < self.cell_ranges@.len(),
                range == self.cell_ranges@[cell_idx as int],
                cell_start == range.start,
                cell_end == range.start + range.end_index,
                range.end_index > 0,
                cell_start <= i <= cell_end,
                cell_end <= self.entity_storage@.len(),
                *self == *old(self),
                old(self).holds_at(col as int, row as int, entity) ==> old(self).entity_total() > 0,
                cell_idx == row * old(self).cols + col,
                forall|j: int| cell_start <= j < i ==> #[trigger] self.entity_storage@[j] != entity,
            decreases cell_end - i,
        {
            if self.entity_storage[i] == entity {
                proof {
                    assert(old(self).cell_index(col as int, row as int) == cell_idx);
                    assert(old(self).storage()[i as int] == entity);
                    assert(old(self).holds_at(col as int, row as int, entity));
                }
                let ghost before = *self;
                let last_idx = cell_end - 1;
                if i != last_idx {
                    let moved = self.entity_storage[last_idx];
                    self.entity_storage.set(i, moved);
                }
                self.cell_ranges.set(cell_idx, CellRange { end_index: range.end_index - 1, ..range });
                self.entity_count = self.entity_count - 1;
                proof {
                    assert(old(self).cell_index(col as int, row as int) == cell_idx);
                    assert(before == *old(self));
                    assert(before.ranges()[cell_idx as int] == range);
                    assert(before.storage()[i as int] == entity);
                    assert(before.first_slot_of(cell_idx as int, entity, i as int));
                    assert(old(self).first_slot_of(cell_idx as int, entity, i as int));
                    assert(old(self).cell_holds(cell_idx as int, entity));
                    if i == last_idx {
                        assert(self.entity_storage@ =~= before.entity_storage@.update(i as int, before.entity_storage@[last_idx as int]));
                    }
                    assert(self.storage() =~= old(self).storage().update(i as int, old(self).storage()[last_idx as int]));
                    assert forall|k: int| 0 <= k < self.cell_ranges@.len() implies (#[trigger] self.cell_ranges@[k]).start
                        + self.cell_ranges@[k].end_index <= self.entity_storage@.len() by {
                        if k != cell_idx {
                            assert(self.cell_ranges@[k] == before.cell_ranges@[k]);
                        }
                    }
                    assert forall|k: int| 0 <= k < self.cell_ranges@.len() && self.use_incremental_updates && (#[trigger] self.cell_ranges@[k]).max_index > 0 implies self.cell_ranges@[k].start
                        + self.cell_ranges@[k].max_index <= self.entity_storage@.len() by {
                        if k != cell_idx {
                            assert(self.cell_ranges@[k] == before.cell_ranges@[k]);
                        }
                    }
                }
                return true;
            }
            i = i + 1;
        }
        false
    }

    /// Number of removed slots left in the arena.
    pub fn tombstone_count(&self) -> (r: usize)
        requires
            self.wf(),
        ensures
            r == count_placeholders(self.storage(), self.storage().len() as int),
    {
        let mut n: usize = 0;
        let mut i: usize = 0;
        while i < self.entity_storage.len()
            invariant
                self.wf(),
                i <= self.entity_storage@.len(),
                n == count_placeholders(self.entity_storage@, i as int),
                n <= i,
            decreases self.entity_storage@.len() - i,
        {
            if self.entity_storage[i] == PLACEHOLDER {
                n = n + 1;
            }
            i = i + 1;
        }
        n
    }

    /// Whether some cell uses all the slots reserved for it.
    pub fn any_cell_full(&self) -> (r: bool)
        ensures
            r == exists|i: int| 0 <= i < self.ranges().len() && (#[trigger] self.ranges()[i]).end_index >= self.ranges()[i].max_index,
    {
        let mut i: usize = 0;
        while i < self.cell_ranges.len()
            invariant
                i <= self.cell_ranges@.len(),
                forall|j: int| 0 <= j < i ==> (#[trigger] self.cell_ranges@[j]).end_index < self.cell_ranges@[j].max_index,
            decreases self.cell_ranges@.len() - i,
        {
            let rg = self.cell_ranges[i];
            if rg.end_index >= rg.max_index {
                proof {
                    assert(self.ranges()[i as int] == rg);
                }
                return true;
            }
            i = i + 1;
        }
        false
    }


    /// Whether the grid needs a rebuild: its entities fill more than 85% of
    /// the arena's capacity, or some cell uses all its reserved slots.
    pub open spec fn needs_rebuild(&self) -> bool {
        ||| self.entity_total() * 20 > self.capacity() * 17
        ||| exists|i: int| 0 <= i < self.ranges().len() && (#[trigger] self.ranges()[i]).end_index >= self.ranges()[i].max_index
    }

    /// Whether the grid needs a rebuild, as `needs_rebuild` says.
    pub fn should_rebuild(&self) -> (r: bool)
        ensures
            r == self.needs_rebuild(),
    {
        let n = self.entity_count as u128;
        let c = self.storage_capacity as u128;
        if n * 20 > c * 17 {
            return true;
        }
        self.any_cell_full()
    }

    /// Columns and rows, inclusive, of the cells a square of half-side
    /// `radius` around `pos` touches, clamped to the grid: `(min_col,
    /// max_col, min_row, max_row)`. A lower bound past the grid is held at
    /// one past its last cell, which leaves the box empty as before.
    pub open spec fn radius_box(&self, pos: FixedVec2, radius: FixedNum) -> (int, int, int, int) {
        let (cs, off, hw, hh) = self.geometry();
        let c = cs.bits as int;
        let min_x = pos.x.bits - radius.bits + hw.bits - off.x.bits;
        let max_x = pos.x.bits + radius.bits + hw.bits - off.x.bits;
        let min_y = pos.y.bits - radius.bits + hh.bits - off.y.bits;
        let max_y = pos.y.bits + radius.bits + hh.bits - off.y.bits;
        (
            if min_x / c < 0 { 0 } else if min_x / c > self.dims().0 { self.dims().0 } else { min_x / c },
            if max_x / c > self.dims().0 - 1 { self.dims().0 - 1 } else { max_x / c },
            if min_y / c < 0 { 0 } else if min_y / c > self.dims().1 { self.dims().1 } else { min_y / c },
            if max_y / c > self.dims().1 - 1 { self.dims().1 - 1 } else { max_y / c },
        )
    }

    /// The cells of `radius_box`, row by row, each row from its lowest
    /// column.
    pub fn cells_in_radius(&self, pos: FixedVec2, radius: FixedNum) -> (r: Vec<(usize, usize)>)
        requires
            self.wf(),
            pos.in_range(),
            0 <= radius.bits <= GRID_LIMIT,
            pos.x.bits + radius.bits + self.geometry().2.bits - self.geometry().1.x.bits >= 0,
            pos.y.bits + radius.bits + self.geometry().3.bits - self.geometry().1.y.bits >= 0,
        ensures
            ({
                let (c0, c1, r0, r1) = self.radius_box(pos, radius);
                let w = if c1 >= c0 { c1 - c0 + 1 } else { 0 };
                let h = if r1 >= r0 { r1 - r0 + 1 } else { 0 };
                &&& r@.len() == w * h
                &&& forall|k: int| 0 <= k < r@.len() ==> (#[trigger] r@[k]).0 == c0 + k % w && r@[k].1 == r0 + k / w
            }),
    {
        let min_col = clamp_low(floor_div_fixed(
            FixedNum::from_bits(pos.x.bits - radius.bits + self.half_map_width.bits - self.offset.x.bits),
            self.cell_size,
        ), self.cols);
        let max_col = clamp_high(floor_div_fixed(
            FixedNum::from_bits(pos.x.bits + radius.bits + self.half_map_width.bits - self.offset.x.bits),
            self.cell_size,
        ), self.cols);
        let min_row = clamp_low(floor_div_fixed(
            FixedNum::from_bits(pos.y.bits - radius.bits + self.half_map_height.bits - self.offset.y.bits),
            self.cell_size,
        ), self.rows);
        let max_row = clamp_high(floor_div_fixed(
            FixedNum::from_bits(pos.y.bits + radius.bits + self.half_map_height.bits - self.offset.y.bits),
            self.cell_size,
        ), self.rows);
        let ghost w: int = if max_col >= min_col { max_col - min_col + 1 } else { 0 };
        let mut result: Vec<(usize, usize)> = Vec::new();
        if min_col > max_col || min_row > max_row {
            proof {
                assert(result@.len() == w * (if max_row >= min_row { max_row - min_row + 1 } else { 0 })) by (nonlinear_arith)
                    requires
                        result@.len() == 0,
                        w == 0 || !(max_row >= min_row),
                ;
            }
            return result;
        }
        let mut row: usize = min_row;
        while row <= max_row
            invariant
                min_row <= row <= max_row + 1,
                min_col <= max_col,
                max_row < self.rows,
                max_col < self.cols,
                w == max_col - min_col + 1,
                result@.len() == (row - min_row) * w,
                forall|k: int| 0 <= k < result@.len() ==> (#[trigger] result@[k]).0 == min_col + k % w && result@[k].1 == min_row + k / w,
            decreases max_row + 1 - row,
        {
            let mut col: usize = min_col;
            while col <= max_col
                invariant
                    min_row <= row <= max_row,
                    min_col <= col <= max_col + 1,
                    max_col < self.cols,
                    w == max_col - min_col + 1,
                    result@.len() == (row - min_row) * w + (col - min_col),
                    forall|k: int| 0 <= k < result@.len() ==> (#[trigger] result@[k]).0 == min_col + k % w && result@[k].1 == min_row + k / w,
                decreases max_col + 1 - col,
            {
                proof {
                    let k = (row - min_row) * w + (col - min_col);
                    vstd::arithmetic::div_mod::lemma_fundamental_div_mod_converse(k, w, row - min_row, col - min_col);
                }
                result.push((col, row));
                col = col + 1;
            }
            proof {
                assert((row - min_row) * w + w == (row + 1 - min_row) * w) by (nonlinear_arith);
            }
            row = row + 1;
        }
        proof {
            let h = max_row - min_row + 1;
            assert((row - min_row) * w == w * h) by (nonlinear_arith)
                requires
                    row == max_row + 1,
                    h == max_row - min_row + 1,
            ;
        }
        result
    }


    /// Refills the arena from `entities_by_cell` (the entities of cell `c`
    /// at position `c`; missing cells are empty), cell after cell. In
    /// incremental mode the arena is filled to capacity with placeholders
    /// and every cell also gets an equal share of the free slots as
    /// headroom; otherwise the cells are packed without headroom. The
    /// recorded entity count becomes the number of entities given.
    pub fn rebuild_with_headroom(&mut self, entities_by_cell: &Vec<Vec<u64>>)
        requires
            old(self).wf(),
            total_len(entities_by_cell@, entities_by_cell@.len() as int) <= usize::MAX,
            old(self).incremental() ==> total_len(entities_by_cell@, entities_by_cell@.len() as int) <= old(self).capacity(),
        ensures
            rebuild_result(*old(self), *final(self), entities_by_cell@),
    {
        let ghost by = entities_by_cell@;
        let num_cells = self.cell_ranges.len();
        let mut total_used: usize = 0;
        let mut k: usize = 0;
        while k < entities_by_cell.len()
            invariant
                k <= by.len(),
                by == entities_by_cell@,
                total_len(by, by.len() as int) <= usize::MAX,
                total_used == total_len(by, k as int),
            decreases by.len() - k,
        {
            proof {
                lemma_total_len_mono(by, k + 1, by.len() as int);
            }
            total_used = total_used + entities_by_cell[k].len();
            k = k + 1;
        }
        let capacity = self.storage_capacity;
        let use_incremental = self.use_incremental_updates;
        let free_space = if capacity >= total_used { capacity - total_used } else { 0 };
        let base_headroom = if use_incremental && num_cells > 0 { free_space / num_cells } else { 0 };
        let ghost h = base_headroom as int;
        proof {
            assert(h == rebuild_headroom(old(self), by));
            if use_incremental && num_cells > 0 {
                assert(base_headroom * num_cells <= free_space) by (nonlinear_arith)
                    requires
                        num_cells > 0,
                        base_headroom == free_space / num_cells,
                ;
            }
        }
        let ghost g0 = *self;
        self.entity_storage.clear();
        if use_incremental {
            let mut f: usize = 0;
            while f < capacity
                invariant
                    f <= capacity,
                    self.entity_storage@.len() == f,
                    forall|j: int| 0 <= j < f ==> #[trigger] self.entity_storage@[j] == PLACEHOLDER,
                    self.cell_ranges@ == g0.cell_ranges@,
                    self.cols == g0.cols && self.rows == g0.rows && self.cell_size == g0.cell_size && self.offset == g0.offset,
                    self.half_map_width == g0.half_map_width && self.half_map_height == g0.half_map_height,
                    self.half_cell == g0.half_cell && self.entity_count == g0.entity_count,
                    self.storage_capacity == g0.storage_capacity && self.use_incremental_updates == g0.use_incremental_updates,
                decreases capacity - f,
            {
                self.entity_storage.push(PLACEHOLDER);
                f = f + 1;
            }
        }
        let mut write_pos: usize = 0;
        let mut c: usize = 0;
        while c < num_cells
            invariant
                c <= num_cells,
                num_cells == self.cell_ranges@.len(),
                by == entities_by_cell@,
                h == base_headroom,
                h >= 0,
                use_incremental == self.use_incremental_updates,
                use_incremental ==> base_headroom * num_cells + total_used <= capacity,
                !use_incremental ==> base_headroom == 0,
                total_used == total_len(by, by.len() as int),
                capacity == self.storage_capacity,
                write_pos == lens_before(by, c as int, h),
                self.cols == g0.cols && self.rows == g0.rows && self.cell_size == g0.cell_size && self.offset == g0.offset,
                self.half_map_width == g0.half_map_width && self.half_map_height == g0.half_map_height,
                self.half_cell == g0.half_cell && self.entity_count == g0.entity_count,
                self.storage_capacity == g0.storage_capacity,
                use_incremental ==> self.entity_storage@.len() == capacity,
                !use_incremental ==> self.entity_storage@.len() == write_pos,
                forall|cc: int|
                    0 <= cc < c ==> #[trigger] self.cell_ranges@[cc] == (CellRange {
                        start: lens_before(by, cc, h) as usize,
                        end_index: cell_len(by, cc) as usize,
                        max_index: if use_incremental { (cell_len(by, cc) + h) as usize } else { 0 },
                    }),
                forall|cc: int, i: int|
                    0 <= cc < c && 0 <= i < cell_len(by, cc) ==> self.entity_storage@[lens_before(by, cc, h) + i] == #[trigger] by[cc]@[i],
                use_incremental ==> forall|cc: int, i: int|
                    0 <= cc < c && cell_len(by, cc) <= i < cell_len(by, cc) + h ==> #[trigger] self.entity_storage@[lens_before(by, cc, h) + i] == PLACEHOLDER,
                use_incremental ==> forall|kk: int| write_pos <= kk < self.entity_storage@.len() ==> #[trigger] self.entity_storage@[kk] == PLACEHOLDER,
            decreases num_cells - c,
        {
            proof {
                lemma_lens_before_step(by, c as int, h);
                lemma_lens_bound(by, c as int + 1, num_cells as int, h, total_used as int);
                assert((c + 1) * h <= num_cells * h) by (nonlinear_arith)
                    requires
                        c < num_cells,
                        h >= 0,
                ;
                assert(lens_before(by, c + 1, h) <= total_used + num_cells * h);
            }
            let count = if c < entities_by_cell.len() { entities_by_cell[c].len() } else { 0 };
            let ghost before_cell = self.entity_storage@;
            let ghost rs0 = self.cell_ranges@;
            let mut i: usize = 0;
            while i < count
                invariant
                    i <= count,
                    count == cell_len(by, c as int),
                    c < num_cells,
                    by == entities_by_cell@,
                    use_incremental == self.use_incremental_updates,
                    use_incremental ==> write_pos + count <= self.entity_storage@.len(),
                    write_pos + count <= usize::MAX,
                    use_incremental ==> self.entity_storage@.len() == before_cell.len(),
                    !use_incremental ==> self.entity_storage@.len() == before_cell.len() + i,
                    !use_incremental ==> before_cell.len() == write_pos,
                    forall|j: int| 0 <= j < i ==> #[trigger] self.entity_storage@[write_pos + j] == by[c as int]@[j],
                    forall|j: int| 0 <= j < write_pos ==> #[trigger] self.entity_storage@[j] == before_cell[j],
                    use_incremental ==> forall|j: int| write_pos + i <= j < before_cell.len() ==> #[trigger] self.entity_storage@[j] == before_cell[j],
                    self.cell_ranges@ == rs0,
                    self.cols == g0.cols && self.rows == g0.rows && self.cell_size == g0.cell_size && self.offset == g0.offset,
                    self.half_map_width == g0.half_map_width && self.half_map_height == g0.half_map_height,
                    self.half_cell == g0.half_cell && self.entity_count == g0.entity_count,
                    self.storage_capacity == g0.storage_capacity,
                decreases count - i,
            {
                let e = entities_by_cell[c][i];
                if use_incremental {
                    self.entity_storage.set(write_pos + i, e);
                } else {
                    self.entity_storage.push(e);
                }
                i = i + 1;
            }
            let ghost after_inner = self.entity_storage@;
            proof {
                assert(forall|j: int| 0 <= j < write_pos ==> #[trigger] after_inner[j] == before_cell[j]);
            }
            let max_index = if use_incremental { count + base_headroom } else { 0 };
            self.cell_ranges.set(c, CellRange { start: write_pos, end_index: count, max_index });
            proof {
                assert(self.entity_storage@ == after_inner);
            }
            proof {
                assert forall|cc: int|
                    0 <= cc < c + 1 implies #[trigger] self.cell_ranges@[cc] == (CellRange {
                        start: lens_before(by, cc, h) as usize,
                        end_index: cell_len(by, cc) as usize,
                        max_index: if use_incremental { (cell_len(by, cc) + h) as usize } else { 0 },
                    }) by {
                    if cc < c {
                        assert(self.cell_ranges@[cc] == rs0[cc]);
                    }
                }
                assert forall|cc: int, j: int|
                    0 <= cc < c + 1 && 0 <= j < cell_len(by, cc) implies self.entity_storage@[lens_before(by, cc, h) + j] == #[trigger] by[cc]@[j] by {
                    if cc < c {
                        lemma_lens_before_step(by, cc, h);
                        lemma_lens_before_mono(by, cc + 1, c as int, h);
                        assert(cell_len(by, cc) >= 0);
                        assert(lens_before(by, cc, h) + j < lens_before(by, cc + 1, h));
                        assert(lens_before(by, cc, h) + j < write_pos);
                        let x = lens_before(by, cc, h) + j;
                        lemma_lens_before_mono(by, 0, cc, h);
                        assert(0 <= x);
                        assert(after_inner[x] == before_cell[x]);
                        assert(self.entity_storage@[x] == before_cell[x]);
                    } else {
                        assert(self.entity_storage@[write_pos + j] == by[c as int]@[j]);
                    }
                }
                if use_incremental {
                    assert forall|cc: int, j: int|
                        0 <= cc < c + 1 && cell_len(by, cc) <= j < cell_len(by, cc) + h implies #[trigger] self.entity_storage@[lens_before(by, cc, h) + j] == PLACEHOLDER by {
                        if cc < c {
                            lemma_lens_before_step(by, cc, h);
                            lemma_lens_before_mono(by, cc + 1, c as int, h);
                            assert(lens_before(by, cc, h) + j < lens_before(by, cc + 1, h));
                            assert(lens_before(by, cc, h) + j < write_pos);
                            let x = lens_before(by, cc, h) + j;
                            lemma_lens_before_mono(by, 0, cc, h);
                            assert(0 <= x);
                            assert(after_inner[x] == before_cell[x]);
                            assert(self.entity_storage@[x] == before_cell[x]);
                        } else {
                            assert(self.entity_storage@[write_pos + j] == before_cell[write_pos + j]);
                        }
                    }
                    assert forall|kk: int| lens_before(by, c + 1, h) <= kk < self.entity_storage@.len() implies #[trigger] self.entity_storage@[kk] == PLACEHOLDER by {
                        assert(self.entity_storage@[kk] == before_cell[kk]);
                    }
                }
            }
            if use_incremental {
                write_pos = write_pos + count + base_headroom;
            } else {
                write_pos = write_pos + count;
            }
            c = c + 1;
        }
        self.entity_count = total_used;
        proof {
            lemma_lens_bound(by, num_cells as int, num_cells as int, h, total_used as int);
            assert(num_cells * h == base_headroom * num_cells) by (nonlinear_arith)
                requires
                    h == base_headroom,
            ;
            assert(lens_before(by, num_cells as int, h) <= self.entity_storage@.len());
            assert forall|i: int| 0 <= i < self.cell_ranges@.len() implies (#[trigger] self.cell_ranges@[i]).start
                + self.cell_ranges@[i].end_index <= self.entity_storage@.len() by {
                lemma_lens_before_step(by, i, h);
                lemma_lens_before_mono(by, i + 1, num_cells as int, h);
                lemma_lens_before_mono(by, 0, i, h);
            }
            assert forall|i: int| 0 <= i < self.cell_ranges@.len() && self.use_incremental_updates && (#[trigger] self.cell_ranges@[i]).max_index > 0
                implies self.cell_ranges@[i].start + self.cell_ranges@[i].max_index <= self.entity_storage@.len() by {
                lemma_lens_before_step(by, i, h);
                lemma_lens_before_mono(by, i + 1, num_cells as int, h);
                lemma_lens_before_mono(by, 0, i, h);
            }
        }
    }


    /// Entities of cell `idx` that are not removed, in slot order.
    pub open spec fn live_contents(&self, idx: int) -> Seq<u64> {
        live_prefix(self.cell_contents(idx), self.cell_contents(idx).len() as int)
    }

    /// Number of entities that are not removed in the cells before `c`.
    pub open spec fn live_before(&self, c: int) -> int
        decreases c,
    {
        if c <= 0 {
            0
        } else {
            self.live_before(c - 1) + self.live_contents(c - 1).len()
        }
    }

    /// Drops the removed slots: the arena becomes the entities of the cells
    /// that are not removed, cell after cell in slot order, each non-empty
    /// cell's range covering exactly its entities (with no headroom left
    /// beyond them) and each empty cell's range cleared. Nothing changes
    /// for an empty arena.
    pub fn compact(&mut self)
        requires
            old(self).wf(),
        ensures
            compact_result(*old(self), *final(self)),
    {
        if self.entity_storage.len() == 0 {
            return;
        }
        let ghost g = *self;
        let n = self.cell_ranges.len();
        let mut new_storage: Vec<u64> = Vec::new();
        let mut new_ranges: Vec<CellRange> = Vec::new();
        let mut k: usize = 0;
        while k < n
            invariant
                k <= n,
                new_ranges@.len() == k,
                forall|j: int| 0 <= j < k ==> range_cleared(#[trigger] new_ranges@[j]),
            decreases n - k,
        {
            new_ranges.push(CellRange::new());
            k = k + 1;
        }
        let mut c: usize = 0;
        while c < n
            invariant
                *self == g,
                g.wf(),
                n == g.cell_ranges@.len(),
                c <= n,
                new_ranges@.len() == n,
                new_storage@.len() == g.live_before(c as int),
                forall|j: int| c <= j < n ==> range_cleared(#[trigger] new_ranges@[j]),
                forall|cc: int|
                    0 <= cc < c ==> #[trigger] new_ranges@[cc] == if g.ranges()[cc].end_index == 0 {
                        CellRange { start: 0, end_index: 0, max_index: 0 }
                    } else {
                        CellRange {
                            start: g.live_before(cc) as usize,
                            end_index: g.live_contents(cc).len() as usize,
                            max_index: g.live_contents(cc).len() as usize,
                        }
                    },
                forall|cc: int, i: int|
                    0 <= cc < c && 0 <= i < g.live_contents(cc).len() ==> new_storage@[g.live_before(cc) + i] == #[trigger] g.live_contents(cc)[i],
            decreases n - c,
        {
            let range = self.cell_ranges[c];
            proof {
                assert(range == g.ranges()[c as int]);
                assert(range.start + range.end_index <= g.entity_storage@.len());
                lemma_live_prefix_len(g.cell_contents(c as int), g.cell_contents(c as int).len() as int);
            }
            if range.end_index == 0 {
                proof {
                    assert(g.cell_contents(c as int).len() == 0);
                    assert(g.live_contents(c as int) =~= Seq::<u64>::empty());
                    assert(g.live_before(c as int + 1) == g.live_before(c as int));
                    assert forall|cc: int, i: int|
                        0 <= cc < c + 1 && 0 <= i < g.live_contents(cc).len() implies new_storage@[g.live_before(cc) + i] == #[trigger] g.live_contents(cc)[i] by {
                    }
                }
                c = c + 1;
                continue;
            }
            let new_start = new_storage.len();
            let ghost prev = new_storage@;
            let end = range.start + range.end_index;
            let mut i: usize = range.start;
            while i < end
                invariant
                    *self == g,
                    g.wf(),
                    c < n,
                    range == g.ranges()[c as int],
                    end == range.start + range.end_index,
                    end <= g.entity_storage@.len(),
                    range.start <= i <= end,
                    new_start == prev.len(),
                    new_storage@ == prev + live_prefix(g.cell_contents(c as int), i - range.start),
                decreases end - i,
            {
                let e = self.entity_storage[i];
                proof {
                    assert(g.cell_contents(c as int)[i - range.start] == e);
                }
                if e != PLACEHOLDER {
                    new_storage.push(e);
                }
                proof {
                    assert(new_storage@ =~= prev + live_prefix(g.cell_contents(c as int), i + 1 - range.start));
                }
                i = i + 1;
            }
            let new_count = new_storage.len() - new_start;
            proof {
                assert(g.cell_contents(c as int).len() == range.end_index);
                assert(new_storage@ =~= prev + g.live_contents(c as int));
                assert(new_count == g.live_contents(c as int).len());
            }
            let ghost prev_ranges = new_ranges@;
            new_ranges.set(c, CellRange { start: new_start, end_index: new_count, max_index: new_count });
            proof {
                assert forall|cc: int|
                    0 <= cc < c + 1 implies #[trigger] new_ranges@[cc] == if g.ranges()[cc].end_index == 0 {
                        CellRange { start: 0, end_index: 0, max_index: 0 }
                    } else {
                        CellRange {
                            start: g.live_before(cc) as usize,
                            end_index: g.live_contents(cc).len() as usize,
                            max_index: g.live_contents(cc).len() as usize,
                        }
                    } by {
                    if cc < c {
                        assert(new_ranges@[cc] == prev_ranges[cc]);
                    }
                }
                assert forall|cc: int, j: int|
                    0 <= cc < c + 1 && 0 <= j < g.live_contents(cc).len() implies new_storage@[g.live_before(cc) + j] == #[trigger] g.live_contents(cc)[j] by {
                    if cc < c {
                        lemma_live_before_mono(&g, cc + 1, c as int);
                        lemma_live_before_mono(&g, 0, cc);
                        assert(new_storage@[g.live_before(cc) + j] == prev[g.live_before(cc) + j]);
                    } else {
                        assert(new_storage@[prev.len() + j] == g.live_contents(c as int)[j]);
                    }
                }
            }
            c = c + 1;
        }
        let new_len = new_storage.len();
        self.entity_storage = new_storage;
        self.cell_ranges = new_ranges;
        proof {
            assert(self.entity_storage@.len() == new_len);
            assert forall|i: int| 0 <= i < self.cell_ranges@.len() implies (#[trigger] self.cell_ranges@[i]).start
                + self.cell_ranges@[i].end_index <= self.entity_storage@.len() by {
                if g.ranges()[i].end_index != 0 {
                    lemma_live_before_mono(&g, i + 1, n as int);
                    lemma_live_before_mono(&g, 0, i);
                    assert(g.live_before(i + 1) == g.live_before(i) + g.live_contents(i).len());
                    assert(g.live_before(n as int) == new_len);
                }
            }
            assert forall|i: int| 0 <= i < self.cell_ranges@.len() && self.use_incremental_updates && (#[trigger] self.cell_ranges@[i]).max_index > 0
                implies self.cell_ranges@[i].start + self.cell_ranges@[i].max_index <= self.entity_storage@.len() by {
                if g.ranges()[i].end_index != 0 {
                    lemma_live_before_mono(&g, i + 1, n as int);
                    lemma_live_before_mono(&g, 0, i);
                    assert(g.live_before(i + 1) == g.live_before(i) + g.live_contents(i).len());
                    assert(g.live_before(n as int) == new_len);
                }
            }
        }
    }


    /// Moves `entity` from cell `(old_col, old_row)` to cell `(new_col,
    /// new_row)`: removal by swapping, then insertion. Fails with "Entity
    /// not found in old cell" (nothing changed) or "Cell overflow - rebuild
    /// needed" (the entity is removed and not inserted); else returns the
    /// new slot.
    pub fn update_entity_incremental(
        &mut self,
        entity: u64,
        old_col: usize,
        old_row: usize,
        new_col: usize,
        new_row: usize,
    ) -> (r: Result<usize, &'static str>)
        requires
            old(self).wf(),
            old_row * old(self).dims().0 + old_col <= usize::MAX,
            new_row * old(self).dims().0 + new_col <= usize::MAX,
            old(self).entity_total() > 0,
        ensures
            exists|mid: StaggeredGrid, removed: bool|
                #[trigger] swap_result(*old(self), mid, old_col as int, old_row as int, entity, removed) && if !removed {
                    r == Err::<usize, &'static str>("Entity not found in old cell") && *final(self) == *old(self)
                } else {
                    match r {
                        Ok(slot) => slot != usize::MAX && insert_result(mid, *final(self), new_col as int, new_row as int, entity, slot),
                        Err(msg) => msg == "Cell overflow - rebuild needed" && insert_result(
                            mid,
                            *final(self),
                            new_col as int,
                            new_row as int,
                            entity,
                            usize::MAX,
                        ),
                    }
                },
    {
        let ghost g0 = *self;
        let removed = self.remove_entity_swap(old_col, old_row, entity);
        let ghost mid = *self;
        if !removed {
            proof {
                assert(swap_result(g0, mid, old_col as int, old_row as int, entity, removed));
            }
            return Err("Entity not found in old cell");
        }
        let storage_idx = self.insert_entity(new_col, new_row, entity);
        proof {
            assert(swap_result(g0, mid, old_col as int, old_row as int, entity, removed));
            assert(insert_result(mid, *self, new_col as int, new_row as int, entity, storage_idx));
        }
        if storage_idx == usize::MAX {
            return Err("Cell overflow - rebuild needed");
        }
        Ok(storage_idx)
    }


    /// A well-formed grid has at least one row and column, and its cell
    /// count fits in `usize`.
    pub proof fn lemma_dims(&self)
        requires
            self.wf(),
        ensures
            self.dims().0 >= 1,
            self.dims().1 >= 1,
            self.dims().0 * self.dims().1 <= usize::MAX,
            self.ranges().len() == self.dims().0 * self.dims().1,
    {
    }

    /// Number of columns.
    pub fn num_cols(&self) -> (r: usize)
        ensures
            r == self.dims().0,
    {
        self.cols
    }

    /// Number of rows.
    pub fn num_rows(&self) -> (r: usize)
        ensures
            r == self.dims().1,
    {
        self.rows
    }

    /// Whether cells get headroom.
    pub fn is_incremental(&self) -> (r: bool)
        ensures
            r == self.incremental(),
    {
        self.use_incremental_updates
    }

    /// Number of cells with at least one slot in use.
    pub fn non_empty_cells(&self) -> (r: usize)
        ensures
            r == count_non_empty(self.ranges(), self.ranges().len() as int),
    {
        let mut n: usize = 0;
        let mut i: usize = 0;
        while i < self.cell_ranges.len()
            invariant
                i <= self.cell_ranges@.len(),
                n == count_non_empty(self.cell_ranges@, i as int),
                n <= i,
            decreases self.cell_ranges@.len() - i,
        {
            if self.cell_ranges[i].end_index != 0 {
                n = n + 1;
            }
            i = i + 1;
        }
        n
    }

    /// The cell holding `pos`, as `pos_to_cell_spec` describes it.
    pub fn pos_to_cell(&self, pos: FixedVec2) -> (r: (usize, usize))
        requires
            self.wf(),
            pos.in_range(),
        ensures
            (r.0 as int, r.1 as int) == self.pos_to_cell_spec(pos),
            r.0 < self.dims().0,
            r.1 < self.dims().1,
    {
        let x = FixedNum::from_bits(pos.x.bits + self.half_map_width.bits - self.offset.x.bits);
        let y = FixedNum::from_bits(pos.y.bits + self.half_map_height.bits - self.offset.y.bits);
        let col = clamp_index(floor_div_fixed(x, self.cell_size), self.cols);
        let row = clamp_index(floor_div_fixed(y, self.cell_size), self.rows);
        (col, row)
    }

    /// The centre of cell `(col, row)`, as `cell_center_spec` describes it.
    pub fn cell_center(&self, col: usize, row: usize) -> (r: FixedVec2)
        requires
            self.wf(),
            col < self.dims().0,
            row < self.dims().1,
        ensures
            r == self.cell_center_spec(col as int, row as int),
            r.in_range(),
    {
        proof {
            lemma_center_bounds(col as int, self.cols as int, self.cell_size.bits as int);
            lemma_center_bounds(row as int, self.rows as int, self.cell_size.bits as int);
        }
        let cx = FixedNum::from_bits((col as i64) * ONE_BITS + HALF_BITS).mul(self.cell_size);
        let cy = FixedNum::from_bits((row as i64) * ONE_BITS + HALF_BITS).mul(self.cell_size);
        FixedVec2::new(
            FixedNum::from_bits(cx.bits + self.offset.x.bits - self.half_map_width.bits),
            FixedNum::from_bits(cy.bits + self.offset.y.bits - self.half_map_height.bits),
        )
    }

    /// Index of cell `(col, row)` in the row-major cell list.
    pub open spec fn cell_index(&self, col: int, row: int) -> int {
        row * self.dims().0 + col
    }

    /// A grid over a map of the given size with cells of `cell_size`,
    /// shifted by `offset`, two cells of padding in each direction, no
    /// entities, and an arena of `capacity` slots; `incremental` selects
    /// in-place updates with headroom.
    pub fn with_capacity(
        map_width: FixedNum,
        map_height: FixedNum,
        cell_size: FixedNum,
        offset: FixedVec2,
        capacity: usize,
        incremental: bool,
    ) -> (r: StaggeredGrid)
        requires
            grid_args_ok(map_width, map_height, cell_size, offset),
        ensures
            r.wf(),
            r.dims() == (
                cells_across(map_width.bits as int, cell_size.bits as int) + 2,
                cells_across(map_height.bits as int, cell_size.bits as int) + 2,
            ),
            r.geometry() == (cell_size, offset, FixedNum { bits: (map_width.bits / 2) as i64 }, FixedNum { bits: (map_height.bits / 2) as i64 }),
            r.storage().len() == 0,
            r.capacity() == capacity,
            r.entity_total() == 0,
            r.incremental() == incremental,
            forall|i: int| 0 <= i < r.ranges().len() ==> range_cleared(#[trigger] r.ranges()[i]),
    {
        proof {
            let a = cells_across(map_width.bits as int, cell_size.bits as int);
            let b = cells_across(map_height.bits as int, cell_size.bits as int);
            lemma_cells_across_nonneg(map_width.bits as int, cell_size.bits as int);
            lemma_cells_across_nonneg(map_height.bits as int, cell_size.bits as int);
            lemma_grid_extent(map_width.bits as int, cell_size.bits as int);
            lemma_grid_extent(map_height.bits as int, cell_size.bits as int);
            assert(a + 2 <= (a + 2) * (b + 2) && b + 2 <= (a + 2) * (b + 2)) by (nonlinear_arith)
                requires
                    a >= 0,
                    b >= 0,
            ;
        }
        let cols = whole_cells(map_width, cell_size) + 2;
        let rows = whole_cells(map_height, cell_size) + 2;
        let num_cells = cols * rows;
        let mut cell_ranges: Vec<CellRange> = Vec::new();
        let mut i: usize = 0;
        while i < num_cells
            invariant
                i <= num_cells,
                cell_ranges@.len() == i,
                forall|j: int| 0 <= j < i ==> range_cleared(#[trigger] cell_ranges@[j]),
            decreases num_cells - i,
        {
            cell_ranges.push(CellRange::new());
            i = i + 1;
        }
        StaggeredGrid {
            entity_storage: Vec::new(),
            cell_ranges,
            cols,
            rows,
            cell_size,
            offset,
            map_width,
            map_height,
            half_map_width: map_width.half(),
            half_map_height: map_height.half(),
            half_cell: FixedNum::from_bits(HALF_BITS),
            entity_count: 0,
            storage_capacity: capacity,
            use_incremental_updates: incremental,
        }
    }
}

proof fn lemma_grid_extent(w: int, cs: int)
    requires
        0 < w <= GRID_LIMIT,
        0 < cs <= GRID_LIMIT,
    ensures
        (cells_across(w, cs) + 2) * cs <= 4 * GRID_LIMIT,
{
    let q = (w * 65536) / cs;
    let c = (q + 65535) / 65536;
    vstd::arithmetic::div_mod::lemma_fundamental_div_mod(w * 65536, cs);
    vstd::arithmetic::div_mod::lemma_fundamental_div_mod(q + 65535, 65536);
    assert(q >= 0) by (nonlinear_arith)
        requires
            q == (w * 65536) / cs,
            w > 0,
            cs > 0,
    ;
    assert(q * cs <= w * 65536) by (nonlinear_arith)
        requires
            w * 65536 == cs * q + (w * 65536) % cs,
            (w * 65536) % cs >= 0,
    ;
    assert(c * 65536 <= q + 65535);
    assert(c * 65536 * cs <= (q + 65535) * cs) by (nonlinear_arith)
        requires
            c * 65536 <= q + 65535,
            cs > 0,
    ;
    assert(c * cs <= w + cs) by (nonlinear_arith)
        requires
            c * 65536 * cs <= (q + 65535) * cs,
            q * cs <= w * 65536,
            cs > 0,
    ;
    assert((c + 2) * cs == c * cs + 2 * cs) by (nonlinear_arith);
}

proof fn lemma_cells_across_nonneg(w: int, cs: int)
    requires
        w > 0,
        cs > 0,
    ensures
        cells_across(w, cs) >= 0,
{
    assert(w * 65536 >= 0) by (nonlinear_arith)
        requires
            w > 0,
    ;
    assert((w * 65536) / cs >= 0) by (nonlinear_arith)
        requires
            w * 65536 >= 0,
            cs > 0,
    ;
}

/// Number of removed slots among the first `k` of `s`.
pub open spec fn count_placeholders(s: Seq<u64>, k: int) -> int
    decreases k,
{
    if k <= 0 {
        0
    } else {
        count_placeholders(s, k - 1) + if s[k - 1] == PLACEHOLDER { 1int } else { 0int }
    }
}

fn clamp_low(k: i64, n: usize) -> (r: usize)
    ensures
        r == if k < 0 { 0 } else if k > n { n as int } else { k as int },
{
    if k < 0 {
        0
    } else if k as u64 as u128 > n as u128 {
        n
    } else {
        k as usize
    }
}

fn clamp_high(k: i64, n: usize) -> (r: usize)
    requires
        k >= 0,
        n >= 1,
    ensures
        r == if k > n - 1 { n - 1 } else { k as int },
{
    if k as u64 as u128 > (n - 1) as u128 {
        n - 1
    } else {
        k as usize
    }
}

/// Total number of entities in the first `k` cell lists.
pub open spec fn total_len(by: Seq<Vec<u64>>, k: int) -> int
    decreases k,
{
    if k <= 0 {
        0
    } else {
        total_len(by, k - 1) + by[k - 1]@.len()
    }
}

/// `new` is `old` compacted (see `StaggeredGrid::compact`).
pub open spec fn compact_result(old: StaggeredGrid, new: StaggeredGrid) -> bool {
    &&& new.wf()
    &&& new.dims() == old.dims()
    &&& new.geometry() == old.geometry()
    &&& new.capacity() == old.capacity()
    &&& new.incremental() == old.incremental()
    &&& new.entity_total() == old.entity_total()
    &&& old.storage().len() == 0 ==> new == old
    &&& (old.storage().len() > 0 ==> {
        let n = old.ranges().len() as int;
        &&& new.ranges().len() == n
        &&& new.storage().len() == old.live_before(n)
        &&& forall|c: int|
            0 <= c < n ==> #[trigger] new.ranges()[c] == if old.ranges()[c].end_index == 0 {
                CellRange { start: 0, end_index: 0, max_index: 0 }
            } else {
                CellRange {
                    start: old.live_before(c) as usize,
                    end_index: old.live_contents(c).len() as usize,
                    max_index: old.live_contents(c).len() as usize,
                }
            }
        &&& forall|c: int, i: int|
            0 <= c < n && 0 <= i < old.live_contents(c).len() ==> new.storage()[old.live_before(c) + i]
                == #[trigger] old.live_contents(c)[i]
    })
}

/// `new` is `old` rebuilt from `by` (see `StaggeredGrid::rebuild_with_headroom`).
pub open spec fn rebuild_result(old: StaggeredGrid, new: StaggeredGrid, by: Seq<Vec<u64>>) -> bool {
    &&& new.wf()
    &&& new.dims() == old.dims()
    &&& new.geometry() == old.geometry()
    &&& new.capacity() == old.capacity()
    &&& new.incremental() == old.incremental()
    &&& new.entity_total() == total_len(by, by.len() as int)
    &&& new.ranges().len() == old.ranges().len()
    &&& ({
        let n = old.ranges().len() as int;
        let h = rebuild_headroom(&old, by);
        &&& forall|c: int|
            0 <= c < n ==> #[trigger] new.ranges()[c] == (CellRange {
                start: lens_before(by, c, h) as usize,
                end_index: cell_len(by, c) as usize,
                max_index: if old.incremental() { (cell_len(by, c) + h) as usize } else { 0 },
            })
        &&& forall|c: int, i: int|
            0 <= c < n && 0 <= i < cell_len(by, c) ==> new.storage()[lens_before(by, c, h) + i]
                == #[trigger] by[c]@[i]
        &&& if old.incremental() {
            &&& new.storage().len() == old.capacity()
            &&& forall|c: int, i: int|
                0 <= c < n && cell_len(by, c) <= i < cell_len(by, c) + h ==> #[trigger] new.storage()[lens_before(by, c, h) + i] == PLACEHOLDER
            &&& forall|k: int| lens_before(by, n, h) <= k < new.storage().len() ==> #[trigger] new.storage()[k] == PLACEHOLDER
        } else {
            new.storage().len() == lens_before(by, n, 0)
        }
    })
}

/// Number of entities given for cell `c` (none past the end of the list).
pub open spec fn cell_len(by: Seq<Vec<u64>>, c: int) -> int {
    if 0 <= c < by.len() {
        by[c]@.len() as int
    } else {
        0
    }
}

/// Slots taken by the cells before `c`, each with `h` slots of headroom.
pub open spec fn lens_before(by: Seq<Vec<u64>>, c: int, h: int) -> int
    decreases c,
{
    if c <= 0 {
        0
    } else {
        lens_before(by, c - 1, h) + cell_len(by, c - 1) + h
    }
}

/// Headroom each cell gets when `g` is rebuilt from `by`: in incremental
/// mode an equal share of the slots the entities leave free.
pub open spec fn rebuild_headroom(g: &StaggeredGrid, by: Seq<Vec<u64>>) -> int {
    let total = total_len(by, by.len() as int);
    let free = if g.capacity() >= total { g.capacity() - total } else { 0 };
    let n = g.ranges().len() as int;
    if g.incremental() && n > 0 {
        free / n
    } else {
        0
    }
}

/// Growing one cell's list by one entity grows the total of the lists
/// that include it by one.
pub proof fn lemma_total_len_push(by: Seq<Vec<u64>>, nb: Seq<Vec<u64>>, c: int, n: int)
    requires
        0 <= n <= by.len(),
        nb.len() == by.len(),
        0 <= c < by.len(),
        nb[c]@.len() == by[c]@.len() + 1,
        forall|j: int| 0 <= j < by.len() && j != c ==> (#[trigger] nb[j])@.len() == by[j]@.len(),
    ensures
        total_len(nb, n) == total_len(by, n) + if c < n { 1int } else { 0int },
    decreases n,
{
    if n > 0 {
        lemma_total_len_push(by, nb, c, n - 1);
    }
}

/// The total of a list of empty lists is zero.
pub proof fn lemma_total_len_empty(by: Seq<Vec<u64>>, n: int)
    requires
        0 <= n <= by.len(),
        forall|j: int| 0 <= j < by.len() ==> (#[trigger] by[j])@.len() == 0,
    ensures
        total_len(by, n) == 0,
    decreases n,
{
    if n > 0 {
        lemma_total_len_empty(by, n - 1);
    }
}

pub proof fn lemma_total_len_mono(by: Seq<Vec<u64>>, a: int, b: int)
    requires
        0 <= a <= b,
    ensures
        total_len(by, a) <= total_len(by, b),
    decreases b - a,
{
    if a < b {
        lemma_total_len_mono(by, a, b - 1);
    }
}

proof fn lemma_lens_before_step(by: Seq<Vec<u64>>, c: int, h: int)
    requires
        0 <= c,
    ensures
        lens_before(by, c + 1, h) == lens_before(by, c, h) + cell_len(by, c) + h,
{
}

proof fn lemma_lens_before_mono(by: Seq<Vec<u64>>, a: int, b: int, h: int)
    requires
        0 <= a <= b,
        h >= 0,
    ensures
        lens_before(by, a, h) <= lens_before(by, b, h),
    decreases b - a,
{
    if a < b {
        lemma_lens_before_mono(by, a, b - 1, h);
    }
}

proof fn lemma_lens_zero(by: Seq<Vec<u64>>, c: int)
    requires
        0 <= c,
    ensures
        lens_before(by, c, 0) == total_len(by, if c < by.len() { c } else { by.len() as int }),
    decreases c,
{
    if c > 0 {
        lemma_lens_zero(by, c - 1);
        assert(lens_before(by, c, 0) == lens_before(by, c - 1, 0) + cell_len(by, c - 1));
        if c <= by.len() {
            assert(total_len(by, c) == total_len(by, c - 1) + by[c - 1]@.len());
        } else {
            assert(cell_len(by, c - 1) == 0);
        }
    }
}

/// The cells before `c` take at most the given entities plus their headroom.
proof fn lemma_lens_bound(by: Seq<Vec<u64>>, c: int, n: int, h: int, total: int)
    requires
        0 <= c <= n,
        h >= 0,
        total == total_len(by, by.len() as int),
    ensures
        lens_before(by, c, h) <= lens_before(by, c, 0) + c * h,
        lens_before(by, c, 0) <= total,
    decreases c,
{
    lemma_lens_zero(by, c);
    if c < by.len() {
        lemma_total_len_mono(by, c, by.len() as int);
    }
    if c > 0 {
        lemma_lens_bound(by, c - 1, n, h, total);
        assert((c - 1) * h + h == c * h) by (nonlinear_arith);
        assert(lens_before(by, c, h) == lens_before(by, c - 1, h) + cell_len(by, c - 1) + h);
        assert(lens_before(by, c, 0) == lens_before(by, c - 1, 0) + cell_len(by, c - 1));
    } else {
        assert(c * h == 0) by (nonlinear_arith)
            requires
                c == 0,
        ;
    }
}

/// Entities of the first `k` slots of `s` that are not removed.
pub open spec fn live_prefix(s: Seq<u64>, k: int) -> Seq<u64>
    decreases k,
{
    if k <= 0 {
        Seq::empty()
    } else if s[k - 1] != PLACEHOLDER {
        live_prefix(s, k - 1).push(s[k - 1])
    } else {
        live_prefix(s, k - 1)
    }
}

proof fn lemma_live_prefix_len(s: Seq<u64>, k: int)
    requires
        0 <= k,
    ensures
        live_prefix(s, k).len() <= k,
    decreases k,
{
    if k > 0 {
        lemma_live_prefix_len(s, k - 1);
    }
}

proof fn lemma_live_before_mono(g: &StaggeredGrid, a: int, b: int)
    requires
        0 <= a <= b,
    ensures
        g.live_before(a) <= g.live_before(b),
    decreases b - a,
{
    if a < b {
        lemma_live_before_mono(g, a, b - 1);
    }
}

/// `new` is `old` after inserting `entity` into cell `(col, row)` with
/// result `r` (see `StaggeredGrid::insert_entity`).
pub open spec fn insert_result(old: StaggeredGrid, new: StaggeredGrid, col: int, row: int, entity: u64, r: usize) -> bool {
    &&& new.wf()
    &&& new.dims() == old.dims()
    &&& new.geometry() == old.geometry()
    &&& new.capacity() == old.capacity()
    &&& new.incremental() == old.incremental()
    &&& {
        let idx = old.cell_index(col, row);
        if idx >= old.ranges().len() {
            r == usize::MAX && new == old
        } else if old.incremental() && old.ranges()[idx].max_index > 0 {
            let rg = old.ranges()[idx];
            if rg.end_index >= rg.max_index {
                r == usize::MAX && new == old
            } else {
                &&& r == rg.start + rg.end_index
                &&& new.storage() == old.storage().update(r as int, entity)
                &&& new.ranges() == old.ranges().update(idx, CellRange { end_index: (rg.end_index + 1) as usize, ..rg })
                &&& new.entity_total() == old.entity_total() + 1
            }
        } else {
            let rg = old.ranges()[idx];
            let at_end = rg.end_index == 0 || rg.start + rg.end_index == old.storage().len();
            let need = if at_end { 1 } else { rg.end_index + 1 };
            if old.storage().len() + need > old.capacity() {
                r == usize::MAX && new == old
            } else if at_end {
                &&& r == old.storage().len()
                &&& new.storage() == old.storage().push(entity)
                &&& new.ranges() == old.ranges().update(
                    idx,
                    if rg.end_index == 0 {
                        CellRange { start: r, end_index: 1, ..rg }
                    } else {
                        CellRange { end_index: (rg.end_index + 1) as usize, ..rg }
                    },
                )
                &&& new.entity_total() == old.entity_total() + 1
            } else {
                &&& r == old.storage().len() + rg.end_index
                &&& new.storage() == old.storage() + old.cell_contents(idx).push(entity)
                &&& new.ranges() == old.ranges().update(
                    idx,
                    CellRange { start: old.storage().len() as usize, end_index: (rg.end_index + 1) as usize, ..rg },
                )
                &&& new.entity_total() == old.entity_total() + 1
            }
        }
    }
}

/// `new` is `old` after removing `entity` from cell `(col, row)` by
/// swapping, with result `r` (see `StaggeredGrid::remove_entity_swap`).
pub open spec fn swap_result(old: StaggeredGrid, new: StaggeredGrid, col: int, row: int, entity: u64, r: bool) -> bool {
    &&& new.wf()
    &&& new.dims() == old.dims()
    &&& new.geometry() == old.geometry()
    &&& new.capacity() == old.capacity()
    &&& new.incremental() == old.incremental()
    &&& {
        let idx = old.cell_index(col, row);
        if idx < old.ranges().len() && old.cell_holds(idx, entity) {
            let rg = old.ranges()[idx];
            let last = rg.start + rg.end_index - 1;
            &&& r
            &&& exists|i: int| #[trigger] old.first_slot_of(idx, entity, i)
                && new.storage() == old.storage().update(i, old.storage()[last])
            &&& new.ranges() == old.ranges().update(idx, CellRange { end_index: (rg.end_index - 1) as usize, ..rg })
            &&& new.entity_total() == old.entity_total() - 1
        } else {
            !r && new == old
        }
    }
}

/// Number of cells among the first `k` with a slot in use.
pub open spec fn count_non_empty(rs: Seq<CellRange>, k: int) -> int
    decreases k,
{
    if k <= 0 {
        0
    } else {
        count_non_empty(rs, k - 1) + if rs[k - 1].end_index != 0 { 1int } else { 0int }
    }
}

pub proof fn lemma_count_non_empty_nonneg(rs: Seq<CellRange>, k: int)
    ensures
        0 <= count_non_empty(rs, k),
    decreases k,
{
    if k > 0 {
        lemma_count_non_empty_nonneg(rs, k - 1);
    }
}

/// `new` is `old` after removing `entity` from cell `(col, row)` by
/// marking its slot, with result `r` (see `StaggeredGrid::remove_entity`).
pub open spec fn remove_result(old: StaggeredGrid, new: StaggeredGrid, col: int, row: int, entity: u64, r: Option<bool>) -> bool {
    &&& new.wf()
    &&& new.dims() == old.dims()
    &&& new.geometry() == old.geometry()
    &&& new.capacity() == old.capacity()
    &&& new.incremental() == old.incremental()
    &&& new.ranges() == old.ranges()
    &&& {
        let idx = old.cell_index(col, row);
        if idx < old.ranges().len() && old.cell_holds(idx, entity) {
            &&& r == Some(true)
            &&& exists|i: int| #[trigger] old.first_slot_of(idx, entity, i)
                && new.storage() == old.storage().update(i, PLACEHOLDER)
            &&& new.entity_total() == old.entity_total() - 1
        } else {
            r is None && new == old
        }
    }
}

/// `k` clamped to the indices of `n` cells.
pub open spec fn clamp_cell(k: int, n: int) -> int {
    if k < 0 {
        0
    } else if k > n - 1 {
        n - 1
    } else {
        k
    }
}

fn clamp_index(k: i64, n: usize) -> (r: usize)
    requires
        n >= 1,
    ensures
        r == clamp_cell(k as int, n as int),
{
    if k < 0 {
        0
    } else if k as u64 as u128 > (n - 1) as u128 {
        n - 1
    } else {
        k as usize
    }
}

proof fn lemma_center_bounds(i: int, n: int, cs: int)
    requires
        0 <= i < n,
        0 < cs <= GRID_LIMIT,
        n * cs <= 4 * GRID_LIMIT,
    ensures
        0 <= i * ONE_BITS + HALF_BITS <= 0x40_0000_0000_0000,
        0 <= fixed_mul_spec(i * ONE_BITS + HALF_BITS, cs) <= 4 * GRID_LIMIT + GRID_LIMIT,
{
    assert(i + 1 <= n * cs) by (nonlinear_arith)
        requires
            0 <= i < n,
            cs >= 1,
    ;
    assert((i * 65536 + 32768) * cs <= (4 * GRID_LIMIT + GRID_LIMIT) * 65536) by (nonlinear_arith)
        requires
            0 <= i < n,
            0 < cs <= 0x2_0000_0000,
            n * cs <= 0x8_0000_0000,
    {
        assert(i * cs + cs <= n * cs);
    }
    assert((i * 65536 + 32768) * cs >= 0) by (nonlinear_arith)
        requires
            i >= 0,
            cs >= 0,
    ;
    vstd::arithmetic::div_mod::lemma_div_is_ordered((i * 65536 + 32768) * cs, (4 * GRID_LIMIT + GRID_LIMIT) * 65536, 65536);
    vstd::arithmetic::div_mod::lemma_div_is_ordered(0, (i * 65536 + 32768) * cs, 65536);
}

/// Whole cells of `cell_size` covering `extent`: the ceiling of their
/// quotient, rounded down to the fixed-point grid first.
fn whole_cells(extent: FixedNum, cell_size: FixedNum) -> (r: usize)
    requires
        0 < extent.bits <= GRID_LIMIT,
        0 < cell_size.bits <= GRID_LIMIT,
        cells_across(extent.bits as int, cell_size.bits as int) + 2 <= usize::MAX,
    ensures
        r == cells_across(extent.bits as int, cell_size.bits as int),
{
    let num: u128 = (extent.bits as u128) * (ONE_BITS as u128);
    let q: u128 = num / (cell_size.bits as u128);
    proof {
        assert(num <= 0x10_0000_0000_0000_0000) by (nonlinear_arith)
            requires
                num == (extent.bits as int) * 65536,
                extent.bits <= 0x10_0000_0000,
        ;
        assert(q <= num) by (nonlinear_arith)
            requires
                q == num as int / (cell_size.bits as int),
                cell_size.bits >= 1,
        ;
    }
    let c: u128 = (q + (ONE_BITS as u128) - 1) / (ONE_BITS as u128);
    c as usize
}


/// One cell size with its two staggered grids.
#[derive(Debug, Clone)]
pub struct SizeClass {
    pub cell_size: FixedNum,
    pub grid_a: StaggeredGrid,
    pub grid_b: StaggeredGrid,
    pub entity_count: usize,
}

/// Both grids are well formed and share their layout.
pub open spec fn class_wf(sc: &SizeClass) -> bool {
    &&& sc.grid_a.wf()
    &&& sc.grid_b.wf()
    &&& sc.grid_a.dims() == sc.grid_b.dims()
}

impl SizeClass {
    /// Grid A at the map's origin and grid B shifted by half a cell in both
    /// directions, with cells of `cell_size`, no entities, and arenas of
    /// `capacity` slots.
    pub fn with_capacity(map_width: FixedNum, map_height: FixedNum, cell_size: FixedNum, capacity: usize, incremental: bool) -> (r: SizeClass)
        requires
            grid_args_ok(map_width, map_height, cell_size, FixedVec2 { x: FixedNum { bits: 0 }, y: FixedNum { bits: 0 } }),
        ensures
            class_wf(&r),
            r.cell_size == cell_size,
            r.entity_count == 0,
            r.grid_a.geometry().1 == (FixedVec2 { x: FixedNum { bits: 0 }, y: FixedNum { bits: 0 } }),
            r.grid_b.geometry().1 == (FixedVec2 { x: FixedNum { bits: (cell_size.bits / 2) as i64 }, y: FixedNum { bits: (cell_size.bits / 2) as i64 } }),
            r.grid_a.geometry().0 == cell_size && r.grid_b.geometry().0 == cell_size,
            r.grid_a.storage().len() == 0 && r.grid_b.storage().len() == 0,
            r.grid_a.entity_total() == 0 && r.grid_b.entity_total() == 0,
            r.grid_a.capacity() == capacity && r.grid_b.capacity() == capacity,
            r.grid_a.incremental() == incremental && r.grid_b.incremental() == incremental,
    {
        let half_cell = cell_size.half();
        let zero = FixedVec2::new(FixedNum::zero(), FixedNum::zero());
        let shifted = FixedVec2::new(half_cell, half_cell);
        SizeClass {
            cell_size,
            grid_a: StaggeredGrid::with_capacity(map_width, map_height, cell_size, zero, capacity, incremental),
            grid_b: StaggeredGrid::with_capacity(map_width, map_height, cell_size, shifted, capacity, incremental),
            entity_count: 0,
        }
    }

    /// Empties both grids.
    pub fn clear(&mut self)
        requires
            class_wf(old(self)),
        ensures
            class_wf(final(self)),
            final(self).cell_size == old(self).cell_size,
            final(self).entity_count == 0,
            final(self).grid_a.storage().len() == 0 && final(self).grid_b.storage().len() == 0,
            final(self).grid_a.entity_total() == 0 && final(self).grid_b.entity_total() == 0,
            final(self).grid_a.geometry() == old(self).grid_a.geometry(),
            final(self).grid_b.geometry() == old(self).grid_b.geometry(),
    {
        self.grid_a.clear();
        self.grid_b.clear();
        self.entity_count = 0;
    }

    /// Entities recorded in both grids together.
    pub fn total_entries(&self) -> (r: usize)
        requires
            self.grid_a.entity_total() + self.grid_b.entity_total() <= usize::MAX,
        ensures
            r == self.grid_a.entity_total() + self.grid_b.entity_total(),
    {
        self.grid_a.total_entries() + self.grid_b.total_entries()
    }

    /// Compacts both grids.
    pub fn compact(&mut self)
        requires
            class_wf(old(self)),
        ensures
            class_wf(final(self)),
            final(self).cell_size == old(self).cell_size,
            final(self).entity_count == old(self).entity_count,
            final(self).grid_a.entity_total() == old(self).grid_a.entity_total(),
            final(self).grid_b.entity_total() == old(self).grid_b.entity_total(),
            final(self).grid_a.geometry() == old(self).grid_a.geometry(),
            final(self).grid_b.geometry() == old(self).grid_b.geometry(),
            compact_result(old(self).grid_a, final(self).grid_a),
            compact_result(old(self).grid_b, final(self).grid_b),
    {
        self.grid_a.compact();
        self.grid_b.compact();
    }
}

} // verus!
