//! The order in which a grid holds its alive cells, and what a step does
//! to it.
//!
//! A grid holds its cells in the order in which they came alive. A cell
//! that dies leaves the order of the others as it is, and a cell that is
//! born goes to the end.

use crate::rules::{
    adjacent, alive_next, generations, is_candidate, lemma_count_positive, lemma_neighbors_of,
    live_neighbor_count, neighbors_of, step,
};
use crate::seqs::{
    extended, is_not, lemma_concat, lemma_extended, lemma_filter_all, lemma_filter_contains,
    lemma_filter_push, lemma_filter_same, lemma_filter_twice, lemma_take_contains,
};
use vstd::prelude::*;

verus! {

/// A cell, followed by the cells that touch it.
pub open spec fn around(cell: (i128, i128)) -> Seq<(i128, i128)> {
    seq![cell] + neighbors_of(cell)
}

/// For each of `cells` in turn, the cell and the cells that touch it.
pub open spec fn surroundings(cells: Seq<(i128, i128)>) -> Seq<(i128, i128)>
    decreases cells.len(),
{
    if cells.len() == 0 {
        Seq::empty()
    } else {
        surroundings(cells.drop_last()) + around(cells.last())
    }
}

/// The cells for which the rule has to be evaluated when `cells` are
/// alive: `surroundings(cells)`, each cell where it first occurs.
pub open spec fn candidates_of(cells: Seq<(i128, i128)>) -> Seq<(i128, i128)> {
    extended(Seq::empty(), surroundings(cells))
}

/// The test that a cell is alive in the generation after `alive`.
pub open spec fn lives_on(alive: Set<(i128, i128)>) -> spec_fn((i128, i128)) -> bool {
    |cell: (i128, i128)| alive_next(alive, cell)
}

/// The test that a cell is dead in `alive` and alive in the generation
/// after it.
pub open spec fn is_born(alive: Set<(i128, i128)>) -> spec_fn((i128, i128)) -> bool {
    |cell: (i128, i128)| !alive.contains(cell) && alive_next(alive, cell)
}

/// The cells of the next generation in their order: the cells that live
/// on, in the order that they had, then the cells that are born, in the
/// order of `candidates_of`.
pub open spec fn next_cells(cells: Seq<(i128, i128)>) -> Seq<(i128, i128)> {
    cells.filter(lives_on(cells.to_set())) + candidates_of(cells).filter(is_born(cells.to_set()))
}

/// The candidates are, each once, the cells that are alive or touch an
/// alive cell.
pub proof fn lemma_candidates(cells: Seq<(i128, i128)>)
    ensures
        candidates_of(cells).no_duplicates(),
        forall|cell: (i128, i128)| #[trigger]
            candidates_of(cells).contains(cell) <==> is_candidate(cells.to_set(), cell),
{
    lemma_extended(Seq::empty(), surroundings(cells));
    lemma_surroundings(cells);
    let alive = cells.to_set();
    assert forall|cell: (i128, i128)|
        candidates_of(cells).contains(cell) <==> is_candidate(alive, cell) by {
        lemma_count_positive(alive, cell);
        if near_any(cells, cell) {
            let k = choose|k: int| 0 <= k < cells.len() && near(#[trigger] cells[k], cell);
            assert(alive.contains(cells[k]));
            assert(cells[k] == cell || adjacent(cell, cells[k]));
        }
        if alive.contains(cell) {
            let k = choose|k: int| 0 <= k < cells.len() && cells[k] == cell;
            assert(near(cells[k], cell));
        }
        if live_neighbor_count(alive, cell) > 0 {
            let other = choose|other: (i128, i128)| alive.contains(other) && adjacent(cell, other);
            let k = choose|k: int| 0 <= k < cells.len() && cells[k] == other;
            assert(near(cells[k], cell));
        }
    }
}

/// The next cells are, each once, the alive cells of the next generation.
pub proof fn lemma_next_cells(cells: Seq<(i128, i128)>)
    requires
        cells.no_duplicates(),
    ensures
        next_cells(cells).no_duplicates(),
        next_cells(cells).to_set() == step(cells.to_set()),
{
    let alive = cells.to_set();
    let stay = cells.filter(lives_on(alive));
    let come = candidates_of(cells).filter(is_born(alive));
    lemma_stay_and_come(cells);
    lemma_concat(stay, come);
    assert(next_cells(cells).to_set() =~= step(alive));
}

/// The cells that a grid holds after `n` steps, in their order.
pub open spec fn cell_generations(cells: Seq<(i128, i128)>, n: nat) -> Seq<(i128, i128)>
    decreases n,
{
    if n == 0 {
        cells
    } else {
        next_cells(cell_generations(cells, (n - 1) as nat))
    }
}

/// What a grid holds after `n` steps are, each once, the alive cells of
/// the generation `n` steps on.
pub proof fn lemma_cell_generations(cells: Seq<(i128, i128)>, n: nat)
    requires
        cells.no_duplicates(),
    ensures
        cell_generations(cells, n).no_duplicates(),
        cell_generations(cells, n).to_set() == generations(cells.to_set(), n),
    decreases n,
{
    if n > 0 {
        lemma_cell_generations(cells, (n - 1) as nat);
        lemma_next_cells(cell_generations(cells, (n - 1) as nat));
    }
}

/// The cells that live on are the alive cells that the rule keeps alive,
/// and the cells that are born are the dead cells that it makes alive;
/// neither sequence repeats a cell.
proof fn lemma_stay_and_come(cells: Seq<(i128, i128)>)
    requires
        cells.no_duplicates(),
    ensures
        cells.filter(lives_on(cells.to_set())).no_duplicates(),
        candidates_of(cells).filter(is_born(cells.to_set())).no_duplicates(),
        forall|cell: (i128, i128)| #[trigger]
            cells.filter(lives_on(cells.to_set())).contains(cell) <==> (cells.to_set().contains(
                cell,
            ) && step(cells.to_set()).contains(cell)),
        forall|cell: (i128, i128)| #[trigger]
            candidates_of(cells).filter(is_born(cells.to_set())).contains(cell) <==> (
            !cells.to_set().contains(cell) && step(cells.to_set()).contains(cell)),
{
    let alive = cells.to_set();
    let candidates = candidates_of(cells);
    lemma_filter_contains(cells, lives_on(alive));
    lemma_filter_contains(candidates, is_born(alive));
    lemma_candidates(cells);
    assert forall|cell: (i128, i128)| is_born(alive)(cell) implies candidates.contains(cell) by {
        lemma_born_is_candidate(alive, cell);
    }
}

/// A cell that is alive in the next generation is one for which the rule
/// has to be evaluated.
proof fn lemma_born_is_candidate(alive: Set<(i128, i128)>, cell: (i128, i128))
    requires
        alive_next(alive, cell),
    ensures
        is_candidate(alive, cell),
{
}

/// Whether `cell` is `other` or touches it.
pub open spec fn near(other: (i128, i128), cell: (i128, i128)) -> bool {
    other == cell || adjacent(other, cell)
}

/// Whether `cell` is one of `cells` or touches one of them.
pub open spec fn near_any(cells: Seq<(i128, i128)>, cell: (i128, i128)) -> bool {
    exists|k: int| 0 <= k < cells.len() && near(#[trigger] cells[k], cell)
}

/// The surroundings of `cells` hold the cells that are among `cells` or
/// touch one of them.
pub proof fn lemma_surroundings(cells: Seq<(i128, i128)>)
    ensures
        forall|cell: (i128, i128)| #[trigger]
            surroundings(cells).contains(cell) <==> near_any(cells, cell),
    decreases cells.len(),
{
    if cells.len() > 0 {
        let front = cells.drop_last();
        let last = cells.last();
        lemma_surroundings(front);
        lemma_concat(surroundings(front), around(last));
        lemma_around(last);
        assert forall|cell: (i128, i128)| near_any(cells, cell) <==> (near_any(front, cell) || near(
            last,
            cell,
        )) by {
            if near_any(front, cell) {
                let k = choose|k: int| 0 <= k < front.len() && near(#[trigger] front[k], cell);
                assert(near(cells[k], cell));
            }
            if near(last, cell) {
                assert(near(cells[cells.len() - 1], cell));
            }
            if near_any(cells, cell) {
                let k = choose|k: int| 0 <= k < cells.len() && near(#[trigger] cells[k], cell);
                if k < front.len() {
                    assert(near(front[k], cell));
                }
            }
        }
    }
}

/// `around(cell)` holds `cell` and the cells that touch it, each once.
pub proof fn lemma_around(cell: (i128, i128))
    ensures
        around(cell).no_duplicates(),
        forall|other: (i128, i128)| #[trigger] around(cell).contains(other) <==> near(cell, other),
{
    let one = seq![cell];
    let others = neighbors_of(cell);
    lemma_neighbors_of(cell);
    assert(one[0] == cell);
    assert forall|other: (i128, i128)| one.contains(other) <==> other == cell by {
        if one.contains(other) {
            let k = choose|k: int| 0 <= k < one.len() && one[k] == other;
            assert(one[k] == cell);
        }
    }
    assert forall|other: (i128, i128)| !(one.contains(other) && others.contains(other)) by {}
    lemma_concat(one, others);
    assert forall|other: (i128, i128)| around(cell).contains(other) <==> near(cell, other) by {
        assert((one + others).contains(other) <==> (one.contains(other) || others.contains(other)));
    }
}

/// The test that a cell, if the rule was evaluated for it already, is
/// alive in the generation after `alive`; `done` holds the cells for which
/// the rule was evaluated.
pub open spec fn is_kept(done: Seq<(i128, i128)>, alive: Set<(i128, i128)>) -> spec_fn(
    (i128, i128),
) -> bool {
    |cell: (i128, i128)| done.contains(cell) ==> alive_next(alive, cell)
}

/// The cells on the way from one generation to the next, when the rule
/// was evaluated for the first `n` of `candidates`: of `cells`, those for
/// which it was not yet evaluated and those that live on; then those that
/// are born.
pub open spec fn halfway(cells: Seq<(i128, i128)>, candidates: Seq<(i128, i128)>, n: int) -> Seq<
    (i128, i128),
> {
    cells.filter(is_kept(candidates.take(n), cells.to_set())) + candidates.take(n).filter(
        is_born(cells.to_set()),
    )
}

/// Before the rule is evaluated for any cell, the cells are as they were.
pub proof fn lemma_halfway_start(cells: Seq<(i128, i128)>, candidates: Seq<(i128, i128)>)
    ensures
        halfway(cells, candidates, 0) == cells,
{
    let none = candidates.take(0);
    lemma_filter_all(cells, is_kept(none, cells.to_set()));
    lemma_filter_all(none, is_born(cells.to_set()));
    assert(cells + none =~= cells);
}

/// When the rule is evaluated for all candidates, the cells are those of
/// the next generation.
pub proof fn lemma_halfway_end(cells: Seq<(i128, i128)>)
    ensures
        halfway(cells, candidates_of(cells), candidates_of(cells).len() as int) == next_cells(
            cells,
        ),
{
    let candidates = candidates_of(cells);
    let alive = cells.to_set();
    assert(candidates.take(candidates.len() as int) =~= candidates);
    lemma_candidates(cells);
    assert forall|i: int| 0 <= i < cells.len() implies is_kept(candidates, alive)(
        #[trigger] cells[i],
    ) == lives_on(alive)(cells[i]) by {
        assert(alive.contains(cells[i]));
    }
    lemma_filter_same(cells, is_kept(candidates, alive), lives_on(alive));
}

/// What it does to the cells halfway that the rule is evaluated for one
/// more candidate: a cell that is born goes to the end, a cell that dies
/// leaves, and a cell that stays as it was changes nothing.
pub proof fn lemma_halfway_step(cells: Seq<(i128, i128)>, candidates: Seq<(i128, i128)>, n: int)
    requires
        candidates.no_duplicates(),
        0 <= n < candidates.len(),
    ensures
        halfway(cells, candidates, n).contains(candidates[n]) <==> cells.contains(candidates[n]),
        halfway(cells, candidates, n + 1) == if alive_next(cells.to_set(), candidates[n]) {
            if cells.contains(candidates[n]) {
                halfway(cells, candidates, n)
            } else {
                halfway(cells, candidates, n).push(candidates[n])
            }
        } else {
            halfway(cells, candidates, n).filter(is_not(candidates[n]))
        },
{
    let alive = cells.to_set();
    let next = candidates[n];
    let done = candidates.take(n);
    let more = candidates.take(n + 1);
    let stay = cells.filter(is_kept(done, alive));
    let come = done.filter(is_born(alive));
    lemma_take_contains(candidates, n);
    assert(done.push(next) =~= more);
    lemma_filter_push(done, next, is_born(alive));
    lemma_filter_contains(cells, is_kept(done, alive));
    lemma_filter_contains(done, is_born(alive));
    lemma_concat(stay, come);
    if alive_next(alive, next) {
        assert forall|i: int| 0 <= i < cells.len() implies is_kept(more, alive)(
            #[trigger] cells[i],
        ) == is_kept(done, alive)(cells[i]) by {}
        lemma_filter_same(cells, is_kept(more, alive), is_kept(done, alive));
        if !cells.contains(next) {
            assert(stay + come.push(next) =~= (stay + come).push(next));
        }
    } else {
        let both = |cell: (i128, i128)| is_kept(done, alive)(cell) && is_not(next)(cell);
        lemma_filter_twice(cells, is_kept(done, alive), is_not(next));
        assert forall|i: int| 0 <= i < cells.len() implies is_kept(more, alive)(
            #[trigger] cells[i],
        ) == both(cells[i]) by {}
        lemma_filter_same(cells, is_kept(more, alive), both);
        assert forall|i: int| 0 <= i < come.len() implies is_not(next)(#[trigger] come[i]) by {
            assert(come.contains(come[i]));
        }
        lemma_filter_all(come, is_not(next));
        Seq::filter_distributes_over_add(stay, come, is_not(next));
    }
}

} // verus!
