//! Life on the unbounded plane, and how far a grid follows it.
//!
//! The lattice of a grid ends where `i128` ends. As long as no alive cell
//! lies on its outermost rows and columns, a step on the grid is the step
//! on the unbounded plane.

use crate::rules::{alive_at, alive_next, generations, step};
use vstd::prelude::*;

verus! {

/// One if the cell `(x, y)` of the plane is alive, else zero.
pub open spec fn plane_count_at(alive: Set<(int, int)>, x: int, y: int) -> int {
    if alive.contains((x, y)) {
        1
    } else {
        0
    }
}

/// How many of the eight cells that touch `(x, y)` are alive.
pub open spec fn plane_neighbor_count(alive: Set<(int, int)>, x: int, y: int) -> int {
    plane_count_at(alive, x - 1, y - 1) + plane_count_at(alive, x - 1, y) + plane_count_at(
        alive,
        x - 1,
        y + 1,
    ) + plane_count_at(alive, x, y - 1) + plane_count_at(alive, x, y + 1) + plane_count_at(
        alive,
        x + 1,
        y - 1,
    ) + plane_count_at(alive, x + 1, y) + plane_count_at(alive, x + 1, y + 1)
}

/// The rule on the plane.
pub open spec fn plane_next(alive: Set<(int, int)>, x: int, y: int) -> bool {
    let n = plane_neighbor_count(alive, x, y);
    if alive.contains((x, y)) {
        n == 2 || n == 3
    } else {
        n == 3
    }
}

/// The generation that follows `alive` on the plane.
pub open spec fn plane_step(alive: Set<(int, int)>) -> Set<(int, int)> {
    Set::new(|cell: (int, int)| plane_next(alive, cell.0, cell.1))
}

/// The generation reached from `alive` on the plane after `n` steps.
pub open spec fn plane_generations(alive: Set<(int, int)>, n: nat) -> Set<(int, int)>
    decreases n,
{
    if n == 0 {
        alive
    } else {
        plane_step(plane_generations(alive, (n - 1) as nat))
    }
}

/// The alive cells of a grid as cells of the plane.
pub open spec fn on_plane(alive: Set<(i128, i128)>) -> Set<(int, int)> {
    Set::new(
        |cell: (int, int)|
            i128::MIN <= cell.0 <= i128::MAX && i128::MIN <= cell.1 <= i128::MAX && alive.contains(
                (cell.0 as i128, cell.1 as i128),
            ),
    )
}

/// No alive cell lies on the outermost rows and columns of the lattice.
pub open spec fn clear_of_edge(alive: Set<(i128, i128)>) -> bool {
    forall|cell: (i128, i128)| #[trigger]
        alive.contains(cell) ==> i128::MIN < cell.0 < i128::MAX && i128::MIN < cell.1 < i128::MAX
}

/// Where the alive cells keep clear of the edge, the next generation of
/// the grid is the next generation on the plane.
pub proof fn lemma_step_on_plane(alive: Set<(i128, i128)>)
    requires
        clear_of_edge(alive),
    ensures
        on_plane(step(alive)) == plane_step(on_plane(alive)),
{
    let wide = on_plane(alive);
    assert forall|at: (int, int)| on_plane(step(alive)).contains(at) <==> plane_next(
        wide,
        at.0,
        at.1,
    ) by {
        let (x, y) = at;
        if i128::MIN <= x <= i128::MAX && i128::MIN <= y <= i128::MAX {
            let cell = (x as i128, y as i128);
            assert forall|dx: int, dy: int| -1 <= dx <= 1 && -1 <= dy <= 1 implies (
            #[trigger] alive_at(alive, cell, dx, dy) <==> wide.contains((x + dx, y + dy))) by {}
            assert(alive_next(alive, cell) <==> plane_next(wide, x, y));
        } else {
            assert forall|dx: int, dy: int| -1 <= dx <= 1 && -1 <= dy <= 1 implies !(
            #[trigger] wide.contains((x + dx, y + dy))) by {
                if i128::MIN <= x + dx <= i128::MAX && i128::MIN <= y + dy <= i128::MAX {
                    let other = ((x + dx) as i128, (y + dy) as i128);
                    assert(alive.contains(other) ==> i128::MIN < other.0 < i128::MAX && i128::MIN
                        < other.1 < i128::MAX);
                }
            }
            assert(plane_neighbor_count(wide, x, y) == 0);
        }
    }
    assert(on_plane(step(alive)) =~= plane_step(wide));
}

/// Where every generation before the last keeps clear of the edge, the
/// generations of the grid are the generations on the plane.
pub proof fn lemma_generations_on_plane(alive: Set<(i128, i128)>, n: nat)
    requires
        forall|k: nat| k < n ==> clear_of_edge(#[trigger] generations(alive, k)),
    ensures
        on_plane(generations(alive, n)) == plane_generations(on_plane(alive), n),
    decreases n,
{
    if n > 0 {
        let before = (n - 1) as nat;
        assert forall|k: nat| k < before implies clear_of_edge(#[trigger] generations(alive, k)) by {}
        lemma_generations_on_plane(alive, before);
        assert(clear_of_edge(generations(alive, before)));
        lemma_step_on_plane(generations(alive, before));
    }
}

} // verus!
