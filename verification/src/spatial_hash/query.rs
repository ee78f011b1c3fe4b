//! Queries over the spatial hash: every entity stored in the cells around a
//! position, each once.
use vstd::prelude::*;
use crate::fixed::{FixedNum, FixedVec2};
use crate::spatial_hash::grid::{StaggeredGrid, SizeClass, PLACEHOLDER, GRID_LIMIT};
use crate::spatial_hash::SpatialHash;
use std::collections::HashSet;

verus! {

broadcast use vstd::std_specs::hash::group_hash_axioms;

/// Buffers a query writes its results into.
pub struct SpatialHashScratch {
    /// Entities found by the last query.
    pub query_results: Vec<u64>,
    /// A second buffer for nested queries.
    pub query_results_secondary: Vec<u64>,
    /// Entities already reported by the running query.
    pub seen_entities: HashSet<u64>,
    /// Cells visited by the running query.
    pub cell_coords: Vec<(usize, usize)>,
    /// Most results a query reports.
    pub query_capacity: usize,
}

impl SpatialHashScratch {
    /// Empty buffers for queries of at most `query_capacity` results.
    pub fn new(query_capacity: usize) -> (r: SpatialHashScratch)
        ensures
            r.query_capacity == query_capacity,
            r.query_results@.len() == 0,
            r.query_results_secondary@.len() == 0,
            r.seen_entities@ == Set::<u64>::empty(),
            r.cell_coords@.len() == 0,
    {
        SpatialHashScratch {
            query_results: Vec::new(),
            query_results_secondary: Vec::new(),
            seen_entities: HashSet::with_capacity(query_capacity),
            cell_coords: Vec::new(),
            query_capacity,
        }
    }

    /// Buffers for up to 10,000 results.
    pub fn default_capacity() -> (r: SpatialHashScratch)
        ensures
            r.query_capacity == 10_000,
            r.query_results@.len() == 0,
    {
        SpatialHashScratch::new(10_000)
    }
}

/// `e` may be reported: it is not a removed slot and not the excluded
/// entity.
pub open spec fn reportable(e: u64, exclude: Option<u64>) -> bool {
    e != PLACEHOLDER && exclude != Some(e)
}

/// `g` stores `e` in a cell of the box its radius query around `pos` visits.
pub open spec fn grid_finds(g: StaggeredGrid, pos: FixedVec2, radius: FixedNum, e: u64) -> bool {
    let (c0, c1, r0, r1) = g.radius_box(pos, radius);
    exists|col: int, row: int|
        c0 <= col <= c1 && r0 <= row <= r1 && #[trigger] g.cell_contents(g.cell_index(col, row)).contains(e)
}

/// Some class of `h` holding entities stores `e` in a cell its radius
/// query around `pos` visits, in grid A or grid B.
pub open spec fn hash_finds(h: &SpatialHash, pos: FixedVec2, radius: FixedNum, e: u64) -> bool {
    exists|k: int| 0 <= k < h.classes().len() && #[trigger] class_finds(h.classes()[k], pos, radius, e)
}

/// Class `sc` holds entities and stores `e` in a cell its radius query
/// around `pos` visits, in grid A or grid B.
pub open spec fn class_finds(sc: SizeClass, pos: FixedVec2, radius: FixedNum, e: u64) -> bool {
    sc.entity_count > 0 && (grid_finds(sc.grid_a, pos, radius, e) || grid_finds(sc.grid_b, pos, radius, e))
}

/// The radius query around `pos` can walk every grid: its box reaches the
/// grid.
pub open spec fn query_ok(h: &SpatialHash, pos: FixedVec2, radius: FixedNum) -> bool {
    &&& h.wf()
    &&& pos.in_range()
    &&& 0 <= radius.bits <= GRID_LIMIT
    &&& forall|k: int| 0 <= k < h.classes().len() ==> #[trigger] box_reaches(h.classes()[k].grid_a, pos, radius)
        && box_reaches(h.classes()[k].grid_b, pos, radius)
}

/// The far corner of the square of half-side `radius` around `pos` lies
/// at or past the corner of grid `g`.
pub open spec fn box_reaches(g: StaggeredGrid, pos: FixedVec2, radius: FixedNum) -> bool {
    &&& pos.x.bits + radius.bits + g.geometry().2.bits - g.geometry().1.x.bits >= 0
    &&& pos.y.bits + radius.bits + g.geometry().3.bits - g.geometry().1.y.bits >= 0
}

/// Results of a query: no entity twice, only reportable entities in `found`.
pub open spec fn results_sound(results: Seq<u64>, exclude: Option<u64>, found: Set<u64>) -> bool {
    &&& results.no_duplicates()
    &&& forall|i: int| 0 <= i < results.len() ==> reportable(#[trigger] results[i], exclude) && found.contains(results[i])
}

/// Appends the reportable entities of `cell` not yet in `results`, in
/// order, until `results` holds `cap` entities and another is due; whether
/// it stopped there.
fn add_cell(
    cell: &Vec<u64>,
    exclude: Option<u64>,
    results: &mut Vec<u64>,
    seen: &mut HashSet<u64>,
    cap: usize,
    found: Ghost<Set<u64>>,
) -> (stopped: bool)
    requires
        old(results)@.len() <= cap,
        old(seen)@ == old(results)@.to_set(),
        results_sound(old(results)@, exclude, found@),
        forall|i: int| 0 <= i < cell@.len() ==> found@.contains(#[trigger] cell@[i]),
    ensures
        final(results)@.len() <= cap,
        results_sound(final(results)@, exclude, found@),
        forall|i: int| 0 <= i < old(results)@.len() ==> final(results)@[i] == old(results)@[i],
        final(results)@.len() >= old(results)@.len(),
        stopped ==> final(results)@.len() == cap,
        !stopped ==> final(seen)@ == final(results)@.to_set(),
        !stopped ==> forall|i: int| 0 <= i < cell@.len() && reportable(cell@[i], exclude) ==> final(results)@.contains(#[trigger] cell@[i]),
{
    let mut i: usize = 0;
    while i < cell.len()
        invariant
            i <= cell@.len(),
            results@.len() <= cap,
            seen@ == results@.to_set(),
            results_sound(results@, exclude, found@),
            forall|j: int| 0 <= j < cell@.len() ==> found@.contains(#[trigger] cell@[j]),
            forall|j: int| 0 <= j < old(results)@.len() ==> results@[j] == old(results)@[j],
            results@.len() >= old(results)@.len(),
            forall|j: int| 0 <= j < i && reportable(cell@[j], exclude) ==> results@.contains(#[trigger] cell@[j]),
        decreases cell@.len() - i,
    {
        let e = cell[i];
        let excluded = match exclude {
            Some(x) => x == e,
            None => false,
        };
        if e != PLACEHOLDER && !excluded && !seen.contains(&e) {
            seen.insert(e);
            if results.len() < cap {
                let ghost before = results@;
                results.push(e);
                proof {
                    before.lemma_push_to_set_commute(e);
                    assert(results@ == before.push(e));
                    assert(results@.to_set() =~= before.to_set().insert(e));
                    assert forall|a: int, b: int| 0 <= a < b < results@.len() implies results@[a] != results@[b] by {
                        if b == before.len() {
                            assert(before[a] == results@[a]);
                        }
                    }
                    assert forall|j: int| 0 <= j < i + 1 && reportable(cell@[j], exclude) implies results@.contains(#[trigger] cell@[j]) by {
                        if j < i {
                            let w = choose|t: int| 0 <= t < before.len() && before[t] == cell@[j];
                            assert(results@[w] == cell@[j]);
                        } else {
                            assert(results@[before.len() as int] == e);
                        }
                    }
                }
            } else {
                return true;
            }
        } else {
            proof {
                assert forall|j: int| 0 <= j < i + 1 && reportable(cell@[j], exclude) implies results@.contains(#[trigger] cell@[j]) by {
                    if j == i {
                        assert(reportable(e, exclude) ==> seen@.contains(e));
                        assert(reportable(e, exclude) ==> results@.to_set().contains(e));
                    }
                }
            }
        }
        i = i + 1;
    }
    false
}



/// Cell `(col, row)` lies in the box `b`.
pub open spec fn in_box(b: (int, int, int, int), col: int, row: int) -> bool {
    b.0 <= col <= b.1 && b.2 <= row <= b.3
}

/// Appends what grid `g` stores in the cells of its radius query around
/// `pos`, as `add_cell` does cell by cell; whether it stopped at `cap`.
fn add_grid(
    g: &StaggeredGrid,
    pos: FixedVec2,
    radius: FixedNum,
    exclude: Option<u64>,
    results: &mut Vec<u64>,
    seen: &mut HashSet<u64>,
    cap: usize,
    found: Ghost<Set<u64>>,
) -> (stopped: bool)
    requires
        g.wf(),
        pos.in_range(),
        0 <= radius.bits <= GRID_LIMIT,
        box_reaches(*g, pos, radius),
        old(results)@.len() <= cap,
        old(seen)@ == old(results)@.to_set(),
        results_sound(old(results)@, exclude, found@),
        forall|e: u64| grid_finds(*g, pos, radius, e) ==> #[trigger] found@.contains(e),
    ensures
        final(results)@.len() <= cap,
        results_sound(final(results)@, exclude, found@),
        forall|i: int| 0 <= i < old(results)@.len() ==> final(results)@[i] == old(results)@[i],
        final(results)@.len() >= old(results)@.len(),
        stopped ==> final(results)@.len() == cap,
        !stopped ==> final(seen)@ == final(results)@.to_set(),
        !stopped ==> forall|e: u64| grid_finds(*g, pos, radius, e) && reportable(e, exclude) ==> #[trigger] final(results)@.contains(e),
{
    let cells = g.cells_in_radius(pos, radius);
    let ghost b = g.radius_box(pos, radius);
    let ghost w: int = if b.1 >= b.0 { b.1 - b.0 + 1 } else { 0 };
    let mut k: usize = 0;
    while k < cells.len()
        invariant
            g.wf(),
            k <= cells@.len(),
            b == g.radius_box(pos, radius),
            w == (if b.1 >= b.0 { b.1 - b.0 + 1 } else { 0 }),
            cells@.len() == w * (if b.3 >= b.2 { b.3 - b.2 + 1 } else { 0 }),
            forall|j: int| 0 <= j < cells@.len() ==> (#[trigger] cells@[j]).0 == b.0 + j % w && cells@[j].1 == b.2 + j / w,
            results@.len() <= cap,
            seen@ == results@.to_set(),
            results_sound(results@, exclude, found@),
            forall|e: u64| grid_finds(*g, pos, radius, e) ==> #[trigger] found@.contains(e),
            forall|j: int| 0 <= j < old(results)@.len() ==> results@[j] == old(results)@[j],
            results@.len() >= old(results)@.len(),
            forall|j: int, e: u64|
                0 <= j < k && #[trigger] g.cell_contents(g.cell_index(cells@[j].0 as int, cells@[j].1 as int)).contains(e) && reportable(e, exclude)
                    ==> results@.contains(e),
        decreases cells@.len() - k,
    {
        let (col, row) = cells[k];
        proof {
            lemma_box_cell(g, pos, radius, cells@.len() as int, w, k as int);
            g.lemma_dims();
            assert(row * g.dims().0 + col < g.dims().0 * g.dims().1) by (nonlinear_arith)
                requires
                    0 <= col < g.dims().0,
                    0 <= row < g.dims().1,
            ;
        }
        let ents = g.get_cell_entities(col, row);
        proof {
            assert forall|i: int| 0 <= i < ents@.len() implies found@.contains(#[trigger] ents@[i]) by {
                assert(g.cell_contents(g.cell_index(col as int, row as int)).contains(ents@[i]));
                assert(grid_finds(*g, pos, radius, ents@[i]));
            }
        }
        let ghost before = results@;
        let stopped = add_cell(&ents, exclude, results, seen, cap, found);
        if stopped {
            return true;
        }
        proof {
            assert forall|j: int, e: u64|
                0 <= j < k + 1 && #[trigger] g.cell_contents(g.cell_index(cells@[j].0 as int, cells@[j].1 as int)).contains(e) && reportable(e, exclude)
                    implies results@.contains(e) by {
                if j < k {
                    let t = choose|t: int| 0 <= t < before.len() && before[t] == e;
                    assert(results@[t] == e);
                } else {
                    let t = choose|t: int| 0 <= t < ents@.len() && ents@[t] == e;
                    assert(ents@[t] == e);
                }
            }
        }
        k = k + 1;
    }
    proof {
        assert forall|e: u64| grid_finds(*g, pos, radius, e) && reportable(e, exclude) implies #[trigger] results@.contains(e) by {
            let (col, row) = choose|col: int, row: int|
                b.0 <= col <= b.1 && b.2 <= row <= b.3 && #[trigger] g.cell_contents(g.cell_index(col, row)).contains(e);
            let j = (row - b.2) * w + (col - b.0);
            lemma_box_index(b, w, col, row, cells@.len() as int);
            assert(cells@[j].0 == col && cells@[j].1 == row);
        }
    }
    false
}

proof fn lemma_box_cell(g: &StaggeredGrid, pos: FixedVec2, radius: FixedNum, n: int, w: int, k: int)
    requires
        g.wf(),
        ({
            let b = g.radius_box(pos, radius);
            &&& w == (if b.1 >= b.0 { b.1 - b.0 + 1 } else { 0 })
            &&& n == w * (if b.3 >= b.2 { b.3 - b.2 + 1 } else { 0 })
        }),
        0 <= k < n,
    ensures
        ({
            let b = g.radius_box(pos, radius);
            &&& 0 <= b.0 + k % w < g.dims().0
            &&& 0 <= b.2 + k / w < g.dims().1
            &&& b.0 <= b.0 + k % w <= b.1
            &&& b.2 <= b.2 + k / w <= b.3
        }),
{
    let b = g.radius_box(pos, radius);
    let h = if b.3 >= b.2 { b.3 - b.2 + 1 } else { 0 };
    assert(w > 0 && h > 0) by (nonlinear_arith)
        requires
            0 <= k < n,
            n == w * h,
            w >= 0,
            h >= 0,
    ;
    vstd::arithmetic::div_mod::lemma_fundamental_div_mod(k, w);
    assert(k / w < h) by (nonlinear_arith)
        requires
            0 <= k < w * h,
            w > 0,
            k == w * (k / w) + k % w,
            0 <= k % w < w,
    ;
    assert(k / w >= 0) by (nonlinear_arith)
        requires
            0 <= k,
            w > 0,
            k == w * (k / w) + k % w,
            0 <= k % w < w,
    ;
}

proof fn lemma_box_index(b: (int, int, int, int), w: int, col: int, row: int, n: int)
    requires
        b.0 <= col <= b.1,
        b.2 <= row <= b.3,
        w == b.1 - b.0 + 1,
        n == w * (b.3 - b.2 + 1),
    ensures
        0 <= (row - b.2) * w + (col - b.0) < n,
        ((row - b.2) * w + (col - b.0)) % w == col - b.0,
        ((row - b.2) * w + (col - b.0)) / w == row - b.2,
{
    vstd::arithmetic::div_mod::lemma_fundamental_div_mod_converse((row - b.2) * w + (col - b.0), w, row - b.2, col - b.0);
    assert(0 <= (row - b.2) * w + (col - b.0) < n) by (nonlinear_arith)
        requires
            0 <= col - b.0 < w,
            0 <= row - b.2 <= b.3 - b.2,
            n == w * (b.3 - b.2 + 1),
    ;
}

proof fn lemma_found_set(h: &SpatialHash, pos: FixedVec2, radius: FixedNum, exclude: Option<u64>, r: Seq<u64>, found: Set<u64>)
    requires
        found == Set::new(|e: u64| hash_finds(h, pos, radius, e)),
        results_sound(r, exclude, found),
    ensures
        r.no_duplicates(),
        forall|i: int| 0 <= i < r.len() ==> reportable(#[trigger] r[i], exclude) && hash_finds(h, pos, radius, r[i]),
{
    assert forall|i: int| 0 <= i < r.len() implies reportable(#[trigger] r[i], exclude) && hash_finds(h, pos, radius, r[i]) by {
        assert(found.contains(r[i]));
    }
}

/// The entities stored in cell `(col, row)` of `g`; none where that cell
/// does not exist.
pub open spec fn grid_cell(g: StaggeredGrid, col: int, row: int) -> Seq<u64> {
    if g.cell_index(col, row) < g.ranges().len() {
        g.cell_contents(g.cell_index(col, row))
    } else {
        Seq::empty()
    }
}

/// The entities of cell `(col, row)` in the first `k` classes that hold
/// entities, class by class, grid A before grid B.
pub open spec fn cell_sequence(classes: Seq<SizeClass>, col: int, row: int, k: int) -> Seq<u64>
    decreases k,
{
    if k <= 0 {
        Seq::empty()
    } else {
        let sc = classes[k - 1];
        if sc.entity_count == 0 {
            cell_sequence(classes, col, row, k - 1)
        } else {
            cell_sequence(classes, col, row, k - 1) + grid_cell(sc.grid_a, col, row) + grid_cell(sc.grid_b, col, row)
        }
    }
}

/// The entities of `s` a query takes, in order: reportable, not in `seen`,
/// each once.
pub open spec fn picked(s: Seq<u64>, exclude: Option<u64>, seen: Set<u64>) -> Seq<u64>
    decreases s.len(),
{
    if s.len() == 0 {
        Seq::empty()
    } else {
        let p = picked(s.drop_last(), exclude, seen);
        let e = s.last();
        if reportable(e, exclude) && !seen.contains(e) && !p.contains(e) {
            p.push(e)
        } else {
            p
        }
    }
}

proof fn lemma_picked_prefix(s: Seq<u64>, t: Seq<u64>, exclude: Option<u64>, seen: Set<u64>)
    requires
        s.len() <= t.len(),
        s == t.take(s.len() as int),
    ensures
        picked(s, exclude, seen).len() <= picked(t, exclude, seen).len(),
        picked(t, exclude, seen).take(picked(s, exclude, seen).len() as int) == picked(s, exclude, seen),
    decreases t.len() - s.len(),
{
    if s.len() < t.len() {
        let s1 = t.take(s.len() + 1int);
        assert(s1.drop_last() =~= s);
        lemma_picked_prefix(s1, t, exclude, seen);
        let ps = picked(s, exclude, seen);
        let p1 = picked(s1, exclude, seen);
        let pt = picked(t, exclude, seen);
        assert(p1.take(ps.len() as int) =~= ps);
        assert(pt.take(ps.len() as int) =~= p1.take(ps.len() as int));
    } else {
        assert(s =~= t);
        assert(picked(t, exclude, seen).take(picked(t, exclude, seen).len() as int) =~= picked(t, exclude, seen));
    }
}

impl SpatialHash {
    /// Every entity that a class holding entities stores in the cells
    /// around `pos` (the cells a square of half-side `radius` touches, in
    /// grid A and in grid B), once each, skipping removed slots and
    /// `exclude_entity`. Results go to `scratch.query_results`, class by
    /// class, grid A before grid B, cell by cell; the query stops once the
    /// results reach the scratch capacity and another entity is due.
    pub fn query_radius(&self, pos: FixedVec2, radius: FixedNum, exclude_entity: Option<u64>, scratch: &mut SpatialHashScratch)
        requires
            query_ok(self, pos, radius),
        ensures
            final(scratch).query_capacity == old(scratch).query_capacity,
            final(scratch).query_results@.len() <= final(scratch).query_capacity,
            final(scratch).query_results@.no_duplicates(),
            forall|i: int|
                0 <= i < final(scratch).query_results@.len() ==> reportable(#[trigger] final(scratch).query_results@[i], exclude_entity)
                    && hash_finds(self, pos, radius, final(scratch).query_results@[i]),
            final(scratch).query_results@.len() < final(scratch).query_capacity ==> forall|e: u64|
                hash_finds(self, pos, radius, e) && reportable(e, exclude_entity) ==> #[trigger] final(scratch).query_results@.contains(e),
    {
        scratch.seen_entities.clear();
        scratch.query_results.clear();
        proof {
            assert(scratch.query_results@.to_set() =~= Set::<u64>::empty());
        }
        let cap = scratch.query_capacity;
        let ghost found = Set::new(|e: u64| hash_finds(self, pos, radius, e));
        let sizes = self.size_classes();
        let mut k: usize = 0;
        while k < sizes.len()
            invariant
                sizes@ == self.classes(),
                found == Set::new(|e: u64| hash_finds(self, pos, radius, e)),
                query_ok(self, pos, radius),
                k <= sizes@.len(),
                scratch.query_capacity == cap,
                cap == old(scratch).query_capacity,
                scratch.query_results@.len() <= cap,
                scratch.seen_entities@ == scratch.query_results@.to_set(),
                results_sound(scratch.query_results@, exclude_entity, found),
                forall|j: int, e: u64|
                    0 <= j < k && #[trigger] class_finds(sizes@[j], pos, radius, e) && reportable(e, exclude_entity)
                        ==> scratch.query_results@.contains(e),
            decreases sizes@.len() - k,
        {
            let sc = &sizes[k];
            if sc.entity_count == 0 {
                k = k + 1;
                continue;
            }
            proof {
                assert(self.wf());
                self.lemma_class_wf(k as int);
                assert(sizes@[k as int] == self.classes()[k as int]);
                assert(box_reaches(self.classes()[k as int].grid_a, pos, radius));
                assert(box_reaches(sc.grid_a, pos, radius) && box_reaches(sc.grid_b, pos, radius));
                assert forall|e: u64| grid_finds(sc.grid_a, pos, radius, e) implies #[trigger] found.contains(e) by {
                    assert(class_finds(self.classes()[k as int], pos, radius, e));
                    assert(hash_finds(self, pos, radius, e));
                }
                assert forall|e: u64| grid_finds(sc.grid_b, pos, radius, e) implies #[trigger] found.contains(e) by {
                    assert(class_finds(self.classes()[k as int], pos, radius, e));
                    assert(hash_finds(self, pos, radius, e));
                }
            }
            let ghost before_a = scratch.query_results@;
            if add_grid(&sc.grid_a, pos, radius, exclude_entity, &mut scratch.query_results, &mut scratch.seen_entities, cap, Ghost(found)) {
                proof {
                    lemma_found_set(self, pos, radius, exclude_entity, scratch.query_results@, found);
                }
                return;
            }
            let ghost before_b = scratch.query_results@;
            if add_grid(&sc.grid_b, pos, radius, exclude_entity, &mut scratch.query_results, &mut scratch.seen_entities, cap, Ghost(found)) {
                proof {
                    lemma_found_set(self, pos, radius, exclude_entity, scratch.query_results@, found);
                }
                return;
            }
            proof {
                assert forall|j: int, e: u64|
                    0 <= j < k + 1 && #[trigger] class_finds(sizes@[j], pos, radius, e) && reportable(e, exclude_entity)
                        implies scratch.query_results@.contains(e) by {
                    if j < k {
                        let t = choose|t: int| 0 <= t < before_a.len() && before_a[t] == e;
                        assert(before_b[t] == before_a[t]);
                        assert(scratch.query_results@[t] == e);
                    } else if grid_finds(sizes@[j].grid_a, pos, radius, e) {
                        assert(sizes@[j] == *sc);
                        assert(grid_finds(sc.grid_a, pos, radius, e));
                        assert(before_b.contains(e));
                        let t = choose|t: int| 0 <= t < before_b.len() && before_b[t] == e;
                        assert(scratch.query_results@[t] == e);
                    } else {
                        assert(sizes@[j] == *sc);
                        assert(grid_finds(sc.grid_b, pos, radius, e));
                    }
                }
            }
            k = k + 1;
        }
        proof {
            assert forall|e: u64| hash_finds(self, pos, radius, e) && reportable(e, exclude_entity) implies #[trigger] scratch.query_results@.contains(e) by {
                let j = choose|j: int| 0 <= j < self.classes().len() && #[trigger] class_finds(self.classes()[j], pos, radius, e);
                assert(sizes@[j] == self.classes()[j]);
                assert(class_finds(sizes@[j], pos, radius, e));
            }
            lemma_found_set(self, pos, radius, exclude_entity, scratch.query_results@, found);
        }
    }

    /// The entities of cell `(col, row)` in every class holding entities,
    /// as `cell_sequence` says.
    fn cell_entities(&self, col: usize, row: usize) -> (r: Vec<u64>)
        requires
            self.wf(),
            forall|k: int| 0 <= k < self.classes().len() ==> row * (#[trigger] self.classes()[k]).grid_a.dims().0 + col <= usize::MAX,
        ensures
            r@ == cell_sequence(self.classes(), col as int, row as int, self.classes().len() as int),
    {
        let sizes = self.size_classes();
        let mut out: Vec<u64> = Vec::new();
        let mut k: usize = 0;
        while k < sizes.len()
            invariant
                sizes@ == self.classes(),
                self.wf(),
                k <= sizes@.len(),
                forall|kk: int| 0 <= kk < self.classes().len() ==> row * (#[trigger] self.classes()[kk]).grid_a.dims().0 + col <= usize::MAX,
                out@ == cell_sequence(sizes@, col as int, row as int, k as int),
            decreases sizes@.len() - k,
        {
            let sc = &sizes[k];
            proof {
                self.lemma_class_wf(k as int);
                assert(row * sizes@[k as int].grid_a.dims().0 + col <= usize::MAX);
            }
            if sc.entity_count != 0 {
                let mut a = sc.grid_a.get_cell_entities(col, row);
                let mut b = sc.grid_b.get_cell_entities(col, row);
                out.append(&mut a);
                out.append(&mut b);
            }
            k = k + 1;
        }
        out
    }

    /// Appends to `scratch.query_results` the entities of cell `(col, row)`
    /// in every class holding entities (grid A before grid B), skipping
    /// removed slots, `exclude_entity`, and entities already in
    /// `scratch.seen_entities`, each once, as `picked` says; every entity
    /// taken is also added to `seen_entities`. Once the results reach the
    /// scratch capacity and another entity is due, that entity is marked
    /// seen and the query stops.
    pub fn query_cell(&self, col: usize, row: usize, exclude_entity: Option<u64>, scratch: &mut SpatialHashScratch)
        requires
            self.wf(),
            old(scratch).query_results@.len() <= old(scratch).query_capacity,
            forall|k: int| 0 <= k < self.classes().len() ==> row * (#[trigger] self.classes()[k]).grid_a.dims().0 + col <= usize::MAX,
        ensures
            final(scratch).query_capacity == old(scratch).query_capacity,
            ({
                let p = picked(
                    cell_sequence(self.classes(), col as int, row as int, self.classes().len() as int),
                    exclude_entity,
                    old(scratch).seen_entities@,
                );
                let room = old(scratch).query_capacity - old(scratch).query_results@.len();
                &&& final(scratch).query_results@ == old(scratch).query_results@ + p.take(
                    if p.len() <= room { p.len() as int } else { room },
                )
                &&& final(scratch).seen_entities@ == old(scratch).seen_entities@.union(
                    p.take(if p.len() <= room { p.len() as int } else { room + 1 }).to_set(),
                )
            }),
    {
        let all = self.cell_entities(col, row);
        let ghost seen0 = scratch.seen_entities@;
        let ghost res0 = scratch.query_results@;
        let ghost p = picked(all@, exclude_entity, seen0);
        let cap = scratch.query_capacity;
        let mut i: usize = 0;
        while i < all.len()
            invariant
                i <= all@.len(),
                scratch.query_capacity == cap,
                cap == old(scratch).query_capacity,
                res0 == old(scratch).query_results@,
                seen0 == old(scratch).seen_entities@,
                p == picked(all@, exclude_entity, seen0),
                all@ == cell_sequence(self.classes(), col as int, row as int, self.classes().len() as int),
                res0.len() <= cap,
                scratch.query_results@ == res0 + picked(all@.take(i as int), exclude_entity, seen0),
                scratch.seen_entities@ == seen0.union(picked(all@.take(i as int), exclude_entity, seen0).to_set()),
                scratch.query_results@.len() <= cap,
            decreases all@.len() - i,
        {
            let e = all[i];
            let excluded = match exclude_entity {
                Some(x) => x == e,
                None => false,
            };
            let ghost q = all@.take(i as int);
            let ghost q1 = all@.take(i + 1);
            let ghost pq = picked(q, exclude_entity, seen0);
            proof {
                assert(q1.drop_last() =~= q);
                assert(q1.last() == e);
            }
            if e != PLACEHOLDER && !excluded && !scratch.seen_entities.contains(&e) {
                proof {
                    assert(!seen0.contains(e));
                    assert(!pq.to_set().contains(e));
                    assert(!pq.contains(e));
                    assert(picked(q1, exclude_entity, seen0) == pq.push(e));
                    pq.lemma_push_to_set_commute(e);
                    assert(pq.push(e).to_set() =~= pq.to_set().insert(e));
                }
                scratch.seen_entities.insert(e);
                proof {
                    assert(scratch.seen_entities@ =~= seen0.union(picked(q1, exclude_entity, seen0).to_set()));
                }
                if scratch.query_results.len() < cap {
                    scratch.query_results.push(e);
                    proof {
                        assert(scratch.query_results@ =~= res0 + picked(q1, exclude_entity, seen0));
                    }
                } else {
                    proof {
                        lemma_picked_prefix(q1, all@, exclude_entity, seen0);
                        lemma_picked_prefix(q, all@, exclude_entity, seen0);
                        assert(pq.len() == cap - res0.len());
                        assert(p.take(pq.len() as int) == pq);
                        assert(p.take(pq.len() + 1int) == pq.push(e));
                        assert(scratch.seen_entities@ =~= seen0.union(p.take(pq.len() + 1int).to_set()));
                        assert(p.len() >= pq.len() + 1);
                        assert(scratch.query_results@ =~= res0 + p.take(pq.len() as int));
                        let room = cap - res0.len();
                        assert(!(p.len() <= room));
                        assert(scratch.query_results@ == res0 + p.take(room));
                        assert(scratch.seen_entities@ == seen0.union(p.take(room + 1).to_set()));

                    }
                    return;
                }
            } else {
                proof {
                    if e != PLACEHOLDER && !excluded {
                        assert(scratch.seen_entities@.contains(e));
                        if !seen0.contains(e) {
                            assert(pq.to_set().contains(e));
                            assert(pq.contains(e));
                        }
                    }
                    assert(picked(q1, exclude_entity, seen0) == pq);
                }
            }
            i = i + 1;
        }
        proof {
            assert(all@.take(all@.len() as int) =~= all@);
            assert(p.take(p.len() as int) =~= p);
        }
    }
}

} // verus!
