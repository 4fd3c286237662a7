//! The rule of Life, stated over sets of alive cells.
//!
//! A cell is a pair of `i128` coordinates, and the lattice is every such
//! pair. A position one step beyond the largest or smallest coordinate is
//! not part of the lattice: nothing lives there and nothing is born there.
//! As long as no alive cell lies on the outermost rows and columns, that
//! makes no difference to the unbounded plane, as `plane` shows.

use vstd::prelude::*;

verus! {

/// Whether the position `(dx, dy)` away from `cell` is a cell of the lattice.
pub open spec fn on_lattice(cell: (i128, i128), dx: int, dy: int) -> bool {
    &&& i128::MIN <= cell.0 + dx <= i128::MAX
    &&& i128::MIN <= cell.1 + dy <= i128::MAX
}

/// The cell `(dx, dy)` away from `cell`; meaningful where `on_lattice` holds.
pub open spec fn shifted(cell: (i128, i128), dx: int, dy: int) -> (i128, i128) {
    ((cell.0 + dx) as i128, (cell.1 + dy) as i128)
}

/// Whether `other` is one of the eight cells that touch `cell`.
pub open spec fn adjacent(cell: (i128, i128), other: (i128, i128)) -> bool {
    &&& cell != other
    &&& -1 <= other.0 - cell.0 <= 1
    &&& -1 <= other.1 - cell.1 <= 1
}

/// Whether an alive cell lies `(dx, dy)` away from `cell`.
pub open spec fn alive_at(alive: Set<(i128, i128)>, cell: (i128, i128), dx: int, dy: int) -> bool {
    on_lattice(cell, dx, dy) && alive.contains(shifted(cell, dx, dy))
}

/// One if an alive cell lies `(dx, dy)` away from `cell`, else zero.
pub open spec fn count_at(alive: Set<(i128, i128)>, cell: (i128, i128), dx: int, dy: int) -> int {
    if alive_at(alive, cell, dx, dy) {
        1
    } else {
        0
    }
}

/// How many of the eight cells that touch `cell` are alive.
pub open spec fn live_neighbor_count(alive: Set<(i128, i128)>, cell: (i128, i128)) -> int {
    count_at(alive, cell, -1, -1) + count_at(alive, cell, -1, 0) + count_at(alive, cell, -1, 1)
        + count_at(alive, cell, 0, -1) + count_at(alive, cell, 0, 1) + count_at(alive, cell, 1, -1)
        + count_at(alive, cell, 1, 0) + count_at(alive, cell, 1, 1)
}

/// The rule: an alive cell stays alive with two or three alive neighbours,
/// a dead cell comes alive with exactly three.
pub open spec fn alive_next(alive: Set<(i128, i128)>, cell: (i128, i128)) -> bool {
    let n = live_neighbor_count(alive, cell);
    if alive.contains(cell) {
        n == 2 || n == 3
    } else {
        n == 3
    }
}

/// The generation that follows `alive`.
pub open spec fn step(alive: Set<(i128, i128)>) -> Set<(i128, i128)> {
    Set::new(|cell: (i128, i128)| alive_next(alive, cell))
}

/// The generation reached from `alive` after `n` steps.
pub open spec fn generations(alive: Set<(i128, i128)>, n: nat) -> Set<(i128, i128)>
    decreases n,
{
    if n == 0 {
        alive
    } else {
        step(generations(alive, (n - 1) as nat))
    }
}

/// Whether the rule has to be evaluated for `cell`: it is alive, or one of
/// its neighbours is. Every other cell is dead and stays dead.
pub open spec fn is_candidate(alive: Set<(i128, i128)>, cell: (i128, i128)) -> bool {
    alive.contains(cell) || live_neighbor_count(alive, cell) > 0
}

/// The neighbour `(dx, dy)` away from `cell` as a sequence of one cell, or
/// the empty sequence where that position is the cell itself or lies off
/// the lattice.
pub open spec fn neighbor_if(cell: (i128, i128), dx: int, dy: int) -> Seq<(i128, i128)> {
    if (dx != 0 || dy != 0) && on_lattice(cell, dx, dy) {
        seq![shifted(cell, dx, dy)]
    } else {
        Seq::empty()
    }
}

/// The neighbours of `cell` in the column `dx` away from it, by rising `dy`.
pub open spec fn neighbor_column(cell: (i128, i128), dx: int) -> Seq<(i128, i128)> {
    neighbor_if(cell, dx, -1) + neighbor_if(cell, dx, 0) + neighbor_if(cell, dx, 1)
}

/// The neighbours of `cell`: by rising `dx`, and for equal `dx` by rising `dy`.
pub open spec fn neighbors_of(cell: (i128, i128)) -> Seq<(i128, i128)> {
    neighbor_column(cell, -1) + neighbor_column(cell, 0) + neighbor_column(cell, 1)
}

/// `neighbors_of` lists exactly the cells that touch `cell`, each once.
pub proof fn lemma_neighbors_of(cell: (i128, i128))
    ensures
        neighbors_of(cell).no_duplicates(),
        forall|other: (i128, i128)| neighbors_of(cell).contains(other) <==> adjacent(cell, other),
{
    let ns = neighbors_of(cell);
    assert forall|other: (i128, i128)| ns.contains(other) <==> adjacent(cell, other) by {
        if adjacent(cell, other) {
            let dx = other.0 - cell.0;
            let dy = other.1 - cell.1;
            assert(on_lattice(cell, dx, dy));
            assert(shifted(cell, dx, dy) == other);
            lemma_neighbor_listed(cell, dx, dy);
        }
        if ns.contains(other) {
            let i = choose|i: int| 0 <= i < ns.len() && ns[i] == other;
            lemma_neighbor_index(cell, i);
        }
    }
    assert forall|i: int, j: int| 0 <= i < j < ns.len() implies ns[i] != ns[j] by {
        lemma_neighbor_index(cell, i);
        lemma_neighbor_index(cell, j);
    }
}

/// Each element of `neighbors_of(cell)` touches `cell`, and the elements
/// rise in `rank`, so that no two are the same.
proof fn lemma_neighbor_index(cell: (i128, i128), i: int)
    requires
        0 <= i < neighbors_of(cell).len(),
    ensures
        adjacent(cell, neighbors_of(cell)[i]),
        forall|j: int|
            0 <= j < i ==> rank(cell, neighbors_of(cell)[j]) < rank(
                cell,
                #[trigger] neighbors_of(cell)[i],
            ),
{
    let a = neighbor_if(cell, -1, -1);
    let b = neighbor_if(cell, -1, 0);
    let c = neighbor_if(cell, -1, 1);
    let d = neighbor_if(cell, 0, -1);
    let e = neighbor_if(cell, 0, 1);
    let f = neighbor_if(cell, 1, -1);
    let g = neighbor_if(cell, 1, 0);
    let h = neighbor_if(cell, 1, 1);
    assert(neighbor_if(cell, 0, 0) =~= Seq::empty());
    assert(neighbors_of(cell) =~= a + b + c + d + e + f + g + h);
}

/// The place of `other` in the order of `neighbors_of(cell)`.
spec fn rank(cell: (i128, i128), other: (i128, i128)) -> int {
    3 * (other.0 - cell.0) + (other.1 - cell.1)
}

/// A neighbour on the lattice is listed by `neighbors_of`.
proof fn lemma_neighbor_listed(cell: (i128, i128), dx: int, dy: int)
    requires
        -1 <= dx <= 1,
        -1 <= dy <= 1,
        dx != 0 || dy != 0,
        on_lattice(cell, dx, dy),
    ensures
        neighbors_of(cell).contains(shifted(cell, dx, dy)),
{
    let column = neighbor_column(cell, dx);
    let one = neighbor_if(cell, dx, dy);
    assert(one[0] == shifted(cell, dx, dy));
    let before = if dy == -1 {
        Seq::empty()
    } else if dy == 0 {
        neighbor_if(cell, dx, -1)
    } else {
        neighbor_if(cell, dx, -1) + neighbor_if(cell, dx, 0)
    };
    assert(column[before.len() as int] == shifted(cell, dx, dy));
    let columns_before = if dx == -1 {
        Seq::empty()
    } else if dx == 0 {
        neighbor_column(cell, -1)
    } else {
        neighbor_column(cell, -1) + neighbor_column(cell, 0)
    };
    let at = (columns_before.len() + before.len()) as int;
    assert(neighbors_of(cell)[at] == shifted(cell, dx, dy));
}

/// A cell has an alive neighbour exactly when its count is above zero.
pub proof fn lemma_count_positive(alive: Set<(i128, i128)>, cell: (i128, i128))
    ensures
        live_neighbor_count(alive, cell) > 0 <==> exists|other: (i128, i128)|
            alive.contains(other) && adjacent(cell, other),
        0 <= live_neighbor_count(alive, cell) <= 8,
{
    if live_neighbor_count(alive, cell) > 0 {
        let (dx, dy) = choose|dx: int, dy: int|
            -1 <= dx <= 1 && -1 <= dy <= 1 && (dx != 0 || dy != 0) && alive_at(alive, cell, dx, dy);
        assert(alive.contains(shifted(cell, dx, dy)) && adjacent(cell, shifted(cell, dx, dy)));
    }
    if exists|other: (i128, i128)| alive.contains(other) && adjacent(cell, other) {
        let other = choose|other: (i128, i128)| alive.contains(other) && adjacent(cell, other);
        let dx = other.0 - cell.0;
        let dy = other.1 - cell.1;
        assert(shifted(cell, dx, dy) == other);
        assert(alive_at(alive, cell, dx, dy));
    }
}

} // verus!
