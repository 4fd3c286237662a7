//! Patterns to lay down on a grid.

use crate::grid::SquareGrid;
use crate::rules::{on_lattice, shifted};
use crate::seqs::{extended, lemma_concat};
use vstd::prelude::*;

verus! {

/// Whether `offset`, added to `origin`, gives `cell`.
pub open spec fn lands(origin: (i128, i128), offset: (i128, i128), cell: (i128, i128)) -> bool {
    cell.0 == origin.0 + offset.0 && cell.1 == origin.1 + offset.1
}

/// The cells that the offsets of `pattern` name when they are added to
/// `origin`.
pub open spec fn placed(pattern: Seq<(i128, i128)>, origin: (i128, i128)) -> Set<(i128, i128)> {
    Set::new(
        |cell: (i128, i128)|
            exists|k: int| 0 <= k < pattern.len() && lands(origin, #[trigger] pattern[k], cell),
    )
}

/// The cell that `offset` names when it is added to `origin`, as a
/// sequence of one cell, or the empty sequence where it leads off the
/// lattice.
pub open spec fn landing(origin: (i128, i128), offset: (i128, i128)) -> Seq<(i128, i128)> {
    if on_lattice(origin, offset.0 as int, offset.1 as int) {
        seq![shifted(origin, offset.0 as int, offset.1 as int)]
    } else {
        Seq::empty()
    }
}

/// The cells that the offsets of `pattern` name when they are added to
/// `origin`, in the order of the pattern.
pub open spec fn landed(pattern: Seq<(i128, i128)>, origin: (i128, i128)) -> Seq<(i128, i128)>
    decreases pattern.len(),
{
    if pattern.len() == 0 {
        Seq::empty()
    } else {
        landed(pattern.drop_last(), origin) + landing(origin, pattern.last())
    }
}

/// `landed` lists the cells of `placed`.
pub proof fn lemma_landed(pattern: Seq<(i128, i128)>, origin: (i128, i128))
    ensures
        forall|cell: (i128, i128)| #[trigger]
            landed(pattern, origin).contains(cell) <==> placed(pattern, origin).contains(cell),
    decreases pattern.len(),
{
    if pattern.len() > 0 {
        let front = pattern.drop_last();
        let last = pattern.last();
        let one = landing(origin, last);
        lemma_landed(front, origin);
        lemma_concat(landed(front, origin), one);
        assert forall|cell: (i128, i128)| one.contains(cell) <==> lands(origin, last, cell) by {
            if lands(origin, last, cell) {
                assert(one[0] == cell);
            }
            if one.contains(cell) {
                let k = choose|k: int| 0 <= k < one.len() && one[k] == cell;
                assert(one[k] == shifted(origin, last.0 as int, last.1 as int));
            }
        }
        assert forall|cell: (i128, i128)|
            placed(pattern, origin).contains(cell) <==> (placed(front, origin).contains(cell)
                || lands(origin, last, cell)) by {
            if placed(front, origin).contains(cell) {
                let k = choose|k: int|
                    0 <= k < front.len() && lands(origin, #[trigger] front[k], cell);
                assert(lands(origin, pattern[k], cell));
            }
            if lands(origin, last, cell) {
                assert(lands(origin, pattern[pattern.len() - 1], cell));
            }
            if placed(pattern, origin).contains(cell) {
                let k = choose|k: int|
                    0 <= k < pattern.len() && lands(origin, #[trigger] pattern[k], cell);
                if k < front.len() {
                    assert(lands(origin, front[k], cell));
                }
            }
        }
    }
}

/// The offsets of the five cells of a glider.
pub open spec fn glider_offsets() -> Seq<(i128, i128)> {
    seq![(0i128, 0i128), (2i128, 0i128), (1i128, 1i128), (2i128, 1i128), (1i128, 2i128)]
}

/// The offsets of the four cells of a block, a square of two by two cells.
pub open spec fn block_offsets() -> Seq<(i128, i128)> {
    seq![(0i128, 0i128), (1i128, 0i128), (0i128, 1i128), (1i128, 1i128)]
}

/// Whether `cell` lies `(dx, dy)` away from `pos`.
pub open spec fn at(pos: (i128, i128), cell: (i128, i128), dx: int, dy: int) -> bool {
    cell.0 - pos.0 == dx && cell.1 - pos.1 == dy
}

/// Lays a glider down with its corner at `pos`: the cells `(0, 0)`,
/// `(2, 0)`, `(1, 1)`, `(2, 1)` and `(1, 2)` away from `pos` become alive,
/// as far as they lie on the lattice.
pub fn insert_glider(grid: &mut SquareGrid, pos: (i128, i128))
    ensures
        final(grid)@ == old(grid)@.union(placed(glider_offsets(), pos)),
        final(grid).cells() == extended(old(grid).cells(), landed(glider_offsets(), pos)),
{
    let pattern: [(i128, i128); 5] = [(0, 0), (2, 0), (1, 1), (2, 1), (1, 2)];
    assert(pattern@ =~= glider_offsets());
    grid.seed(pattern.as_slice(), pos);
}

/// The cells of a glider laid down at `pos`, one by one.
pub proof fn lemma_glider_cells(pos: (i128, i128))
    ensures
        forall|cell: (i128, i128)|
            placed(glider_offsets(), pos).contains(cell) <==> (at(pos, cell, 0, 0) || at(
                pos,
                cell,
                2,
                0,
            ) || at(pos, cell, 1, 1) || at(pos, cell, 2, 1) || at(pos, cell, 1, 2)),
{
    let offsets = glider_offsets();
    assert forall|cell: (i128, i128)|
        placed(offsets, pos).contains(cell) <==> (at(pos, cell, 0, 0) || at(pos, cell, 2, 0) || at(
            pos,
            cell,
            1,
            1,
        ) || at(pos, cell, 2, 1) || at(pos, cell, 1, 2)) by {
        if at(pos, cell, 0, 0) {
            assert(lands(pos, offsets[0], cell));
        }
        if at(pos, cell, 2, 0) {
            assert(lands(pos, offsets[1], cell));
        }
        if at(pos, cell, 1, 1) {
            assert(lands(pos, offsets[2], cell));
        }
        if at(pos, cell, 2, 1) {
            assert(lands(pos, offsets[3], cell));
        }
        if at(pos, cell, 1, 2) {
            assert(lands(pos, offsets[4], cell));
        }
    }
}

/// The cells of a block laid down at `pos`, one by one.
pub proof fn lemma_block_cells(pos: (i128, i128))
    ensures
        forall|cell: (i128, i128)|
            placed(block_offsets(), pos).contains(cell) <==> (at(pos, cell, 0, 0) || at(
                pos,
                cell,
                1,
                0,
            ) || at(pos, cell, 0, 1) || at(pos, cell, 1, 1)),
{
    let offsets = block_offsets();
    assert forall|cell: (i128, i128)|
        placed(offsets, pos).contains(cell) <==> (at(pos, cell, 0, 0) || at(pos, cell, 1, 0) || at(
            pos,
            cell,
            0,
            1,
        ) || at(pos, cell, 1, 1)) by {
        if at(pos, cell, 0, 0) {
            assert(lands(pos, offsets[0], cell));
        }
        if at(pos, cell, 1, 0) {
            assert(lands(pos, offsets[1], cell));
        }
        if at(pos, cell, 0, 1) {
            assert(lands(pos, offsets[2], cell));
        }
        if at(pos, cell, 1, 1) {
            assert(lands(pos, offsets[3], cell));
        }
    }
}

} // verus!
