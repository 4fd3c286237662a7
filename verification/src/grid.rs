//! The grid: the alive cells, and the step from one generation to the next.

use crate::order::{
    around, candidates_of, halfway, lemma_candidates, lemma_halfway_end, lemma_halfway_start,
    lemma_halfway_step, lemma_next_cells, next_cells, surroundings,
};
use crate::patterns::{landed, lemma_landed, placed};
use crate::rules::{
    alive_at, is_candidate, live_neighbor_count, neighbor_column, neighbor_if, neighbors_of,
    on_lattice, shifted, step,
};
use crate::seqs::{
    extended, is_not, lemma_extended, lemma_filter_all, lemma_filter_contains,
    lemma_push_contains,
};
use crate::store::{
    all_true, copy_map, distinct_keys, empty_map, entries, key_at, keys, lemma_inserted,
    lemma_keys, lemma_removed, map_contains_key, map_get, map_insert, map_len, map_shift_remove,
};
use indexmap::IndexMap;
use vstd::prelude::*;

verus! {

/// A grid of cells on the lattice of `i128` coordinates. Only the alive
/// cells are stored; every other cell is dead.
pub struct SquareGrid {
    cells: IndexMap<(i128, i128), bool>,
}

impl View for SquareGrid {
    type V = Set<(i128, i128)>;

    /// The set of alive cells.
    open spec fn view(&self) -> Set<(i128, i128)> {
        self.cells().to_set()
    }
}

impl SquareGrid {
    /// No cell is stored twice, and every stored cell is marked alive.
    #[verifier::type_invariant]
    spec fn well_formed(&self) -> bool {
        distinct_keys(entries(self.cells)) && all_true(entries(self.cells))
    }

    /// The alive cells in the order in which the grid holds them: the
    /// order in which they came alive.
    pub closed spec fn cells(&self) -> Seq<(i128, i128)> {
        keys(entries(self.cells))
    }

    /// A grid without alive cells.
    pub fn new() -> (grid: SquareGrid)
        ensures
            grid.cells() == Seq::<(i128, i128)>::empty(),
            grid@ == Set::<(i128, i128)>::empty(),
    {
        let grid = SquareGrid { cells: empty_map() };
        assert(grid.cells() =~= Seq::<(i128, i128)>::empty());
        assert(grid@ =~= Set::<(i128, i128)>::empty());
        grid
    }

    /// Whether the cell at `coord` is alive.
    pub fn is_alive(&self, coord: (i128, i128)) -> (alive: bool)
        ensures
            alive == self@.contains(coord),
    {
        proof {
            use_type_invariant(self);
            lemma_keys(entries(self.cells));
        }
        match map_get(&self.cells, coord) {
            Some(alive) => alive,
            None => false,
        }
    }

    /// Makes the cell at `coord` alive. A dead cell goes behind the alive
    /// ones; an alive cell stays where it is.
    pub fn set_alive(&mut self, coord: (i128, i128))
        ensures
            final(self)@ == old(self)@.insert(coord),
            final(self).cells() == if old(self)@.contains(coord) {
                old(self).cells()
            } else {
                old(self).cells().push(coord)
            },
    {
        proof {
            use_type_invariant(&*self);
            lemma_inserted(entries(self.cells), coord, true);
            lemma_push_contains(old(self).cells(), coord);
            if old(self)@.contains(coord) {
                assert(old(self)@.insert(coord) =~= old(self).cells().to_set());
            } else {
                assert(old(self)@.insert(coord) =~= old(self).cells().push(coord).to_set());
            }
        }
        // The map leaves the grid while it changes, so that the grid is
        // whole at every point.
        let mut cells = empty_map();
        std::mem::swap(&mut cells, &mut self.cells);
        map_insert(&mut cells, coord, true);
        self.cells = cells;
    }

    /// Makes the cell at `coord` dead. The other cells keep their order.
    pub fn set_dead(&mut self, coord: (i128, i128))
        ensures
            final(self)@ == old(self)@.remove(coord),
            final(self).cells() == old(self).cells().filter(is_not(coord)),
    {
        proof {
            use_type_invariant(&*self);
            lemma_removed(entries(self.cells), coord);
            lemma_filter_contains(old(self).cells(), is_not(coord));
            assert(old(self)@.remove(coord) =~= old(self).cells().filter(is_not(coord)).to_set());
        }
        let mut cells = empty_map();
        std::mem::swap(&mut cells, &mut self.cells);
        map_shift_remove(&mut cells, coord);
        self.cells = cells;
    }

    /// Lays the pattern down at `origin`: each offset of `pattern`, added to
    /// `origin`, names a cell that becomes alive. An offset that leads off
    /// the lattice names no cell. The new cells go behind the alive ones,
    /// in the order of the pattern.
    pub fn seed(&mut self, pattern: &[(i128, i128)], origin: (i128, i128))
        ensures
            final(self)@ == old(self)@.union(placed(pattern@, origin)),
            final(self).cells() == extended(old(self).cells(), landed(pattern@, origin)),
    {
        let mut i: usize = 0;
        while i < pattern.len()
            invariant
                i <= pattern.len(),
                self.cells() == extended(
                    old(self).cells(),
                    landed(pattern@.take(i as int), origin),
                ),
            decreases pattern.len() - i,
        {
            let offset = pattern[i];
            let ghost before = landed(pattern@.take(i as int), origin);
            proof {
                assert(pattern@.take(i as int + 1).drop_last() =~= pattern@.take(i as int));
            }
            match offset_cell(origin, offset.0, offset.1) {
                Some(cell) => {
                    proof {
                        assert((before + seq![cell]).drop_last() =~= before);
                    }
                    self.set_alive(cell);
                },
                None => {
                    assert(before + Seq::<(i128, i128)>::empty() =~= before);
                },
            }
            i += 1;
        }
        proof {
            assert(pattern@.take(i as int) =~= pattern@);
            lemma_landed(pattern@, origin);
            lemma_extended(old(self).cells(), landed(pattern@, origin));
            assert(self@ =~= old(self)@.union(placed(pattern@, origin)));
        }
    }

    /// The alive cells, each once, in the order in which the grid holds them.
    pub fn alive_cells(&self) -> (cells: Vec<(i128, i128)>)
        ensures
            cells@ == self.cells(),
            cells@.no_duplicates(),
    {
        proof {
            use_type_invariant(self);
            lemma_keys(entries(self.cells));
        }
        let mut cells: Vec<(i128, i128)> = Vec::new();
        let n = map_len(&self.cells);
        let mut i: usize = 0;
        while i < n
            invariant
                i <= n,
                n == entries(self.cells).len(),
                cells@ == self.cells().take(i as int),
            decreases n - i,
        {
            match key_at(&self.cells, i) {
                Some(coord) => {
                    cells.push(coord);
                },
                // Not reached: `i` is below the number of cells.
                None => {},
            }
            assert(self.cells().take(i as int + 1) =~= self.cells().take(i as int).push(
                self.cells()[i as int],
            ));
            i += 1;
        }
        assert(self.cells().take(i as int) =~= self.cells());
        cells
    }

    /// The number of alive cells.
    pub fn population(&self) -> (count: usize)
        ensures
            count == self.cells().len(),
            self@.finite(),
            count == self@.len(),
    {
        proof {
            use_type_invariant(self);
            lemma_keys(entries(self.cells));
            self.cells().unique_seq_to_set();
            vstd::seq_lib::seq_to_set_is_finite(self.cells());
        }
        map_len(&self.cells)
    }

    /// The cells that touch `pos`: by rising first coordinate, and for
    /// equal first coordinates by rising second coordinate. A cell on the
    /// edge of the lattice has fewer than eight.
    pub fn neighbors(&self, pos: (i128, i128)) -> (neighbors: Vec<(i128, i128)>)
        ensures
            neighbors@ == neighbors_of(pos),
    {
        let mut neighbors: Vec<(i128, i128)> = Vec::new();
        let mut dx: i128 = -1;
        while dx <= 1
            invariant
                -1 <= dx <= 2,
                neighbors@ == columns_before(pos, dx as int),
            decreases 2 - dx,
        {
            let mut dy: i128 = -1;
            while dy <= 1
                invariant
                    -1 <= dx <= 1,
                    -1 <= dy <= 2,
                    neighbors@ == columns_before(pos, dx as int) + column_before(
                        pos,
                        dx as int,
                        dy as int,
                    ),
                decreases 2 - dy,
            {
                if dx != 0 || dy != 0 {
                    match offset_cell(pos, dx, dy) {
                        Some(cell) => {
                            neighbors.push(cell);
                        },
                        None => {},
                    }
                }
                dy += 1;
            }
            dx += 1;
        }
        neighbors
    }

    /// Whether an alive cell lies `(dx, dy)` away from `pos`.
    fn alive_offset(&self, pos: (i128, i128), dx: i128, dy: i128) -> (alive: bool)
        ensures
            alive == alive_at(self@, pos, dx as int, dy as int),
    {
        proof {
            lemma_keys(entries(self.cells));
        }
        match offset_cell(pos, dx, dy) {
            Some(cell) => map_contains_key(&self.cells, cell),
            None => false,
        }
    }

    /// How many of the cells that touch `pos` are alive.
    pub fn live_neighbors(&self, pos: (i128, i128)) -> (count: i128)
        ensures
            count == live_neighbor_count(self@, pos),
    {
        let mut count: i128 = 0;
        if self.alive_offset(pos, -1, -1) {
            count += 1;
        }
        if self.alive_offset(pos, -1, 0) {
            count += 1;
        }
        if self.alive_offset(pos, -1, 1) {
            count += 1;
        }
        if self.alive_offset(pos, 0, -1) {
            count += 1;
        }
        if self.alive_offset(pos, 0, 1) {
            count += 1;
        }
        if self.alive_offset(pos, 1, -1) {
            count += 1;
        }
        if self.alive_offset(pos, 1, 0) {
            count += 1;
        }
        if self.alive_offset(pos, 1, 1) {
            count += 1;
        }
        count
    }

    /// The cells for which the rule has to be evaluated: every alive cell
    /// and every cell that touches one, each listed once. They come in the
    /// order of the alive cells, each alive cell followed by its
    /// neighbours as far as they are not listed yet.
    pub fn get_cells_to_consider(&self) -> (cells: Vec<(i128, i128)>)
        ensures
            cells@ == candidates_of(self.cells()),
            cells@.no_duplicates(),
            forall|cell: (i128, i128)| cells@.contains(cell) <==> is_candidate(self@, cell),
    {
        let mut cells_to_consider: Vec<(i128, i128)> = Vec::new();
        let n = map_len(&self.cells);
        let mut i: usize = 0;
        while i < n
            invariant
                i <= n,
                n == entries(self.cells).len(),
                cells_to_consider@ == candidates_of(self.cells().take(i as int)),
            decreases n - i,
        {
            let ghost before = surroundings(self.cells().take(i as int));
            match key_at(&self.cells, i) {
                Some(coord) => {
                    let neighbors = self.neighbors(coord);
                    proof {
                        assert((before + seq![coord]).drop_last() =~= before);
                    }
                    push_new(&mut cells_to_consider, coord);
                    let mut j: usize = 0;
                    while j < neighbors.len()
                        invariant
                            j <= neighbors.len(),
                            cells_to_consider@ == extended(
                                Seq::empty(),
                                before + seq![coord] + neighbors@.take(j as int),
                            ),
                        decreases neighbors.len() - j,
                    {
                        proof {
                            assert((before + seq![coord] + neighbors@.take(
                                j as int + 1,
                            )).drop_last() =~= before + seq![coord] + neighbors@.take(j as int));
                        }
                        push_new(&mut cells_to_consider, neighbors[j]);
                        j += 1;
                    }
                    proof {
                        assert(neighbors@.take(j as int) =~= neighbors@);
                        assert(before + seq![coord] + neighbors@ =~= before + around(coord));
                    }
                },
                // Not reached: `i` is below the number of cells.
                None => {},
            }
            proof {
                assert(self.cells().take(i as int + 1).drop_last() =~= self.cells().take(i as int));
            }
            i += 1;
        }
        proof {
            assert(self.cells().take(i as int) =~= self.cells());
            lemma_candidates(self.cells());
        }
        cells_to_consider
    }

    /// Replaces the grid by its next generation. Every cell is judged by
    /// the generation before the step. The cells that live on keep their
    /// order, and the cells that are born go behind them.
    pub fn tick(&mut self)
        ensures
            final(self)@ == step(old(self)@),
            final(self).cells() == next_cells(old(self).cells()),
    {
        proof {
            use_type_invariant(&*self);
            lemma_keys(entries(self.cells));
        }
        let mut next = copy_map(&self.cells);
        let candidates = self.get_cells_to_consider();
        proof {
            lemma_halfway_start(self.cells(), candidates@);
        }
        let mut i: usize = 0;
        while i < candidates.len()
            invariant
                i <= candidates.len(),
                candidates@ == candidates_of(self.cells()),
                candidates@.no_duplicates(),
                distinct_keys(entries(next)),
                all_true(entries(next)),
                keys(entries(next)) == halfway(self.cells(), candidates@, i as int),
            decreases candidates.len() - i,
        {
            let coord = candidates[i];
            let live_neighbors = self.live_neighbors(coord);
            proof {
                lemma_halfway_step(self.cells(), candidates@, i as int);
                lemma_removed(entries(next), coord);
                lemma_inserted(entries(next), coord, true);
                let now = halfway(self.cells(), candidates@, i as int);
                if !now.contains(coord) {
                    assert forall|k: int| 0 <= k < now.len() implies is_not(coord)(
                        #[trigger] now[k],
                    ) by {
                        assert(now.contains(now[k]));
                    }
                    lemma_filter_all(now, is_not(coord));
                }
            }
            if live_neighbors < 2 || live_neighbors > 3 {
                map_shift_remove(&mut next, coord);
            } else if live_neighbors == 3 {
                map_insert(&mut next, coord, true);
            }
            i += 1;
        }
        proof {
            lemma_halfway_end(self.cells());
            lemma_next_cells(self.cells());
        }
        self.cells = next;
    }
}

/// The cell `(dx, dy)` away from `pos`, or `None` where that position lies
/// off the lattice.
fn offset_cell(pos: (i128, i128), dx: i128, dy: i128) -> (cell: Option<(i128, i128)>)
    ensures
        cell == if on_lattice(pos, dx as int, dy as int) {
            Some(shifted(pos, dx as int, dy as int))
        } else {
            None::<(i128, i128)>
        },
{
    match pos.0.checked_add(dx) {
        Some(x) => match pos.1.checked_add(dy) {
            Some(y) => Some((x, y)),
            None => None,
        },
        None => None,
    }
}

/// Whether `cell` occurs in `cells`.
fn contains_cell(cells: &Vec<(i128, i128)>, cell: (i128, i128)) -> (found: bool)
    ensures
        found == cells@.contains(cell),
{
    let mut i: usize = 0;
    while i < cells.len()
        invariant
            i <= cells.len(),
            forall|k: int| 0 <= k < i ==> cells@[k] != cell,
        decreases cells.len() - i,
    {
        if cells[i].0 == cell.0 && cells[i].1 == cell.1 {
            return true;
        }
        i += 1;
    }
    false
}

/// Appends `cell` to `cells` unless it occurs there.
fn push_new(cells: &mut Vec<(i128, i128)>, cell: (i128, i128))
    ensures
        final(cells)@ == if old(cells)@.contains(cell) {
            old(cells)@
        } else {
            old(cells)@.push(cell)
        },
{
    if !contains_cell(cells, cell) {
        cells.push(cell);
    }
}

/// The neighbours of `pos` in the columns before the one `dx` away.
spec fn columns_before(pos: (i128, i128), dx: int) -> Seq<(i128, i128)> {
    if dx <= -1 {
        Seq::empty()
    } else if dx == 0 {
        neighbor_column(pos, -1)
    } else if dx == 1 {
        neighbor_column(pos, -1) + neighbor_column(pos, 0)
    } else {
        neighbors_of(pos)
    }
}

/// The neighbours of `pos` in the column `dx` away, before the one `dy` away.
spec fn column_before(pos: (i128, i128), dx: int, dy: int) -> Seq<(i128, i128)> {
    if dy <= -1 {
        Seq::empty()
    } else if dy == 0 {
        neighbor_if(pos, dx, -1)
    } else if dy == 1 {
        neighbor_if(pos, dx, -1) + neighbor_if(pos, dx, 0)
    } else {
        neighbor_column(pos, dx)
    }
}

} // verus!
