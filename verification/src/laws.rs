//! What holds of every grid and every generation.

use crate::order::{candidates_of, cell_generations, is_born, lemma_cell_generations, lives_on};
use crate::patterns::{
    at, block_offsets, glider_offsets, landed, lemma_block_cells, lemma_glider_cells, placed,
};
use crate::rules::{alive_at, alive_next, generations, live_neighbor_count, step};
use crate::seqs::{extended, lemma_extended, lemma_filter_all, lemma_filter_none};
use vstd::prelude::*;

verus! {

/// A cell with fewer than two alive neighbours is dead in the next
/// generation, whether it was alive or not.
pub proof fn lemma_underpopulation(alive: Set<(i128, i128)>, cell: (i128, i128))
    requires
        live_neighbor_count(alive, cell) < 2,
    ensures
        !step(alive).contains(cell),
{
}

/// A cell with four or more alive neighbours is dead in the next
/// generation, whether it was alive or not.
pub proof fn lemma_overpopulation(alive: Set<(i128, i128)>, cell: (i128, i128))
    requires
        live_neighbor_count(alive, cell) >= 4,
    ensures
        !step(alive).contains(cell),
{
}

/// An alive cell with two or three alive neighbours is alive in the next
/// generation.
pub proof fn lemma_survival(alive: Set<(i128, i128)>, cell: (i128, i128))
    requires
        alive.contains(cell),
        live_neighbor_count(alive, cell) == 2 || live_neighbor_count(alive, cell) == 3,
    ensures
        step(alive).contains(cell),
{
}

/// A dead cell is alive in the next generation exactly when three of its
/// neighbours are alive.
pub proof fn lemma_birth(alive: Set<(i128, i128)>, cell: (i128, i128))
    requires
        !alive.contains(cell),
    ensures
        step(alive).contains(cell) <==> live_neighbor_count(alive, cell) == 3,
{
}

/// A cell that is alone on the grid dies, and the grid is empty after it.
pub proof fn lemma_lone_cell_dies(cell: (i128, i128))
    ensures
        step(set![cell]) == Set::<(i128, i128)>::empty(),
{
    let alone = set![cell];
    assert forall|other: (i128, i128)| !alive_next(alone, other) by {
        assert(live_neighbor_count(alone, other) <= 1);
    }
    assert(step(alone) =~= Set::<(i128, i128)>::empty());
}

/// The empty grid stays empty, however many generations pass.
pub proof fn lemma_empty_stays_empty(n: nat)
    ensures
        generations(Set::<(i128, i128)>::empty(), n) == Set::<(i128, i128)>::empty(),
    decreases n,
{
    if n > 0 {
        lemma_empty_stays_empty((n - 1) as nat);
        let nothing = Set::<(i128, i128)>::empty();
        assert forall|cell: (i128, i128)| !alive_next(nothing, cell) by {
            assert(live_neighbor_count(nothing, cell) == 0);
        }
        assert(step(nothing) =~= nothing);
    }
}

/// A block that lies whole on the lattice stays as it is, however many
/// generations pass.
pub proof fn lemma_block_is_still(pos: (i128, i128), n: nat)
    requires
        pos.0 < i128::MAX,
        pos.1 < i128::MAX,
    ensures
        generations(placed(block_offsets(), pos), n) == placed(block_offsets(), pos),
    decreases n,
{
    if n > 0 {
        lemma_block_is_still(pos, (n - 1) as nat);
        let block = placed(block_offsets(), pos);
        lemma_block_cells(pos);
        assert forall|cell: (i128, i128)| alive_next(block, cell) <==> block.contains(cell) by {
            lemma_block_count(pos, cell);
        }
        assert(step(block) =~= block);
    }
}

/// Around a block: each of its cells has three alive neighbours, and no
/// other cell has three.
proof fn lemma_block_count(pos: (i128, i128), cell: (i128, i128))
    requires
        pos.0 < i128::MAX,
        pos.1 < i128::MAX,
    ensures
        placed(block_offsets(), pos).contains(cell) ==> live_neighbor_count(
            placed(block_offsets(), pos),
            cell,
        ) == 3,
        !placed(block_offsets(), pos).contains(cell) ==> live_neighbor_count(
            placed(block_offsets(), pos),
            cell,
        ) != 3,
{
    let block = placed(block_offsets(), pos);
    lemma_block_cells(pos);
    let x = cell.0 - pos.0;
    let y = cell.1 - pos.1;
    assert forall|dx: int, dy: int| -1 <= dx <= 1 && -1 <= dy <= 1 implies (#[trigger] alive_at(
        block,
        cell,
        dx,
        dy,
    ) <==> (0 <= x + dx <= 1 && 0 <= y + dy <= 1)) by {
        if 0 <= x + dx <= 1 && 0 <= y + dy <= 1 {
            let other = ((cell.0 + dx) as i128, (cell.1 + dy) as i128);
            assert(at(pos, other, x + dx, y + dy));
        }
    }
}

/// A glider that has room on the lattice is, four generations on, the same
/// glider one cell further along both axes.
pub proof fn lemma_glider_travels(pos: (i128, i128))
    requires
        pos.0 <= i128::MAX - 3,
        pos.1 <= i128::MAX - 3,
    ensures
        generations(placed(glider_offsets(), pos), 4) == placed(
            glider_offsets(),
            ((pos.0 + 1) as i128, (pos.1 + 1) as i128),
        ),
{
    let start = placed(glider_offsets(), pos);
    let end = placed(glider_offsets(), ((pos.0 + 1) as i128, (pos.1 + 1) as i128));
    lemma_glider_cells(pos);
    lemma_glider_cells(((pos.0 + 1) as i128, (pos.1 + 1) as i128));
    assert(start =~= glider_phase(pos, 0));
    assert(end =~= glider_phase(pos, 4));
    lemma_glider_phase(pos, 0);
    lemma_glider_phase(pos, 1);
    lemma_glider_phase(pos, 2);
    lemma_glider_phase(pos, 3);
    reveal_with_fuel(generations, 5);
}

/// Whether the cell `(x, y)` away from a glider's corner is alive when the
/// glider is `phase` generations old.
spec fn in_glider_phase(phase: int, x: int, y: int) -> bool {
    if phase == 0 {
        (x == 0 && y == 0) || (x == 2 && y == 0) || (x == 1 && y == 1) || (x == 2 && y == 1) || (x
            == 1 && y == 2)
    } else if phase == 1 {
        (x == 2 && y == 0) || (x == 0 && y == 1) || (x == 2 && y == 1) || (x == 1 && y == 2) || (x
            == 2 && y == 2)
    } else if phase == 2 {
        (x == 1 && y == 0) || (x == 2 && y == 1) || (x == 3 && y == 1) || (x == 1 && y == 2) || (x
            == 2 && y == 2)
    } else if phase == 3 {
        (x == 2 && y == 0) || (x == 3 && y == 1) || (x == 1 && y == 2) || (x == 2 && y == 2) || (x
            == 3 && y == 2)
    } else {
        (x == 1 && y == 1) || (x == 3 && y == 1) || (x == 2 && y == 2) || (x == 3 && y == 2) || (x
            == 2 && y == 3)
    }
}

/// The alive cells of a glider laid down at `pos`, `phase` generations on.
spec fn glider_phase(pos: (i128, i128), phase: int) -> Set<(i128, i128)> {
    Set::new(|cell: (i128, i128)| in_glider_phase(phase, cell.0 - pos.0, cell.1 - pos.1))
}

/// Each phase of a glider gives the next.
proof fn lemma_glider_phase(pos: (i128, i128), phase: int)
    requires
        0 <= phase < 4,
        pos.0 <= i128::MAX - 3,
        pos.1 <= i128::MAX - 3,
    ensures
        step(glider_phase(pos, phase)) == glider_phase(pos, phase + 1),
{
    let now = glider_phase(pos, phase);
    let next = glider_phase(pos, phase + 1);
    assert forall|cell: (i128, i128)| alive_next(now, cell) <==> next.contains(cell) by {
        let x = cell.0 - pos.0;
        let y = cell.1 - pos.1;
        assert forall|dx: int, dy: int| -1 <= dx <= 1 && -1 <= dy <= 1 implies (
        #[trigger] alive_at(now, cell, dx, dy) <==> in_glider_phase(phase, x + dx, y + dy)) by {
            if in_glider_phase(phase, x + dx, y + dy) {
                let other = ((cell.0 + dx) as i128, (cell.1 + dy) as i128);
                assert(now.contains(other));
            }
        }
    }
    assert(step(now) =~= next);
}

/// Two grids that hold the same alive cells, in whatever order each, and
/// are seeded with the same pattern at the same place, hold the same alive
/// cells after the same number of steps: the order in which a grid holds
/// and walks its cells has no part in what becomes of them.
pub proof fn lemma_determinism(
    a: Seq<(i128, i128)>,
    b: Seq<(i128, i128)>,
    pattern: Seq<(i128, i128)>,
    origin: (i128, i128),
    n: nat,
)
    requires
        a.no_duplicates(),
        b.no_duplicates(),
        a.to_set() == b.to_set(),
    ensures
        cell_generations(extended(a, landed(pattern, origin)), n).to_set() == cell_generations(
            extended(b, landed(pattern, origin)),
            n,
        ).to_set(),
{
    let more = landed(pattern, origin);
    lemma_extended(a, more);
    lemma_extended(b, more);
    assert forall|cell: (i128, i128)| #[trigger]
        extended(a, more).to_set().contains(cell) <==> extended(b, more).to_set().contains(
            cell,
        ) by {
        assert(a.contains(cell) <==> a.to_set().contains(cell));
        assert(b.contains(cell) <==> b.to_set().contains(cell));
    }
    assert(extended(a, more).to_set() =~= extended(b, more).to_set());
    lemma_cell_generations(extended(a, more), n);
    lemma_cell_generations(extended(b, more), n);
}

/// A grid whose alive cells are those of its next generation holds the
/// same cells in the same order after any number of steps.
pub proof fn lemma_still_life(cells: Seq<(i128, i128)>, n: nat)
    requires
        cells.no_duplicates(),
        step(cells.to_set()) == cells.to_set(),
    ensures
        cell_generations(cells, n) == cells,
    decreases n,
{
    if n > 0 {
        lemma_still_life(cells, (n - 1) as nat);
        let alive = cells.to_set();
        let candidates = candidates_of(cells);
        assert forall|i: int| 0 <= i < cells.len() implies lives_on(alive)(#[trigger] cells[i]) by {
            assert(alive.contains(cells[i]));
            assert(step(alive).contains(cells[i]));
        }
        lemma_filter_all(cells, lives_on(alive));
        assert forall|i: int| 0 <= i < candidates.len() implies !is_born(alive)(
            #[trigger] candidates[i],
        ) by {
            if alive_next(alive, candidates[i]) {
                assert(step(alive).contains(candidates[i]));
            }
        }
        lemma_filter_none(candidates, is_born(alive));
        assert(cells + Seq::<(i128, i128)>::empty() =~= cells);
    }
}

/// The empty grid holds no cell, however many steps it takes.
pub proof fn lemma_empty_grid_stays_empty(n: nat)
    ensures
        cell_generations(Seq::empty(), n) == Seq::<(i128, i128)>::empty(),
{
    let none = Seq::<(i128, i128)>::empty();
    lemma_empty_stays_empty(1);
    assert(none.to_set() =~= Set::<(i128, i128)>::empty());
    assert(generations(Set::<(i128, i128)>::empty(), 1) == step(Set::<(i128, i128)>::empty())) by {
        reveal_with_fuel(generations, 2);
    }
    lemma_still_life(none, n);
}

/// A grid that holds the cells of a block that lies whole on the lattice,
/// and no others, holds them in the same order after any number of steps.
pub proof fn lemma_block_grid_is_still(cells: Seq<(i128, i128)>, pos: (i128, i128), n: nat)
    requires
        cells.no_duplicates(),
        cells.to_set() == placed(block_offsets(), pos),
        pos.0 < i128::MAX,
        pos.1 < i128::MAX,
    ensures
        cell_generations(cells, n) == cells,
{
    lemma_block_is_still(pos, 1);
    assert(generations(cells.to_set(), 1) == step(cells.to_set())) by {
        reveal_with_fuel(generations, 2);
    }
    lemma_still_life(cells, n);
}

} // verus!
