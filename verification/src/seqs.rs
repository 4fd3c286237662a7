//! Sequences of cells: what it is to keep some of them, and to add new ones
//! without repetition.

use vstd::prelude::*;

verus! {

/// The test that a cell differs from `cell`.
pub open spec fn is_not(cell: (i128, i128)) -> spec_fn((i128, i128)) -> bool {
    |other: (i128, i128)| other != cell
}

/// `cells`, followed by those of `more` that are neither in `cells` nor
/// earlier in `more`, in the order of `more`.
pub open spec fn extended(cells: Seq<(i128, i128)>, more: Seq<(i128, i128)>) -> Seq<(i128, i128)>
    decreases more.len(),
{
    if more.len() == 0 {
        cells
    } else {
        let before = extended(cells, more.drop_last());
        if before.contains(more.last()) {
            before
        } else {
            before.push(more.last())
        }
    }
}

/// `extended` holds what either sequence holds, and repeats nothing where
/// `cells` repeats nothing.
pub proof fn lemma_extended(cells: Seq<(i128, i128)>, more: Seq<(i128, i128)>)
    ensures
        forall|cell: (i128, i128)| #[trigger]
            extended(cells, more).contains(cell) <==> (cells.contains(cell) || more.contains(cell)),
        cells.no_duplicates() ==> extended(cells, more).no_duplicates(),
    decreases more.len(),
{
    if more.len() > 0 {
        let front = more.drop_last();
        let before = extended(cells, front);
        lemma_extended(cells, front);
        lemma_push_contains(before, more.last());
        assert forall|cell: (i128, i128)| more.contains(cell) <==> (front.contains(cell) || cell
            == more.last()) by {
            lemma_push_contains(front, more.last());
            assert(front.push(more.last()) =~= more);
        }
    }
}

/// What a sequence holds after a push: what it held, and the new element;
/// it repeats nothing if it repeated nothing and the element is new.
pub proof fn lemma_push_contains(cells: Seq<(i128, i128)>, cell: (i128, i128))
    ensures
        forall|other: (i128, i128)| #[trigger]
            cells.push(cell).contains(other) <==> (cells.contains(other) || other == cell),
        cells.no_duplicates() && !cells.contains(cell) ==> cells.push(cell).no_duplicates(),
{
    let after = cells.push(cell);
    assert(after[cells.len() as int] == cell);
    assert forall|other: (i128, i128)| after.contains(other) <==> (cells.contains(other) || other
        == cell) by {
        if cells.contains(other) {
            let k = choose|k: int| 0 <= k < cells.len() && cells[k] == other;
            assert(after[k] == other);
        }
    }
}

/// What a sequence joined to another holds, and that it repeats nothing
/// where neither repeats anything and they share nothing.
pub proof fn lemma_concat(a: Seq<(i128, i128)>, b: Seq<(i128, i128)>)
    ensures
        forall|cell: (i128, i128)| #[trigger]
            (a + b).contains(cell) <==> (a.contains(cell) || b.contains(cell)),
        a.no_duplicates() && b.no_duplicates() && (forall|cell: (i128, i128)|
            !(a.contains(cell) && b.contains(cell))) ==> (a + b).no_duplicates(),
{
    let all = a + b;
    assert forall|cell: (i128, i128)| all.contains(cell) <==> (a.contains(cell) || b.contains(
        cell,
    )) by {
        if a.contains(cell) {
            let k = choose|k: int| 0 <= k < a.len() && a[k] == cell;
            assert(all[k] == cell);
        }
        if b.contains(cell) {
            let k = choose|k: int| 0 <= k < b.len() && b[k] == cell;
            assert(all[a.len() + k] == cell);
        }
        if all.contains(cell) {
            let k = choose|k: int| 0 <= k < all.len() && all[k] == cell;
            if k < a.len() {
                assert(a[k] == cell);
            } else {
                assert(b[k - a.len()] == cell);
            }
        }
    }
    if a.no_duplicates() && b.no_duplicates() && (forall|cell: (i128, i128)|
        !(a.contains(cell) && b.contains(cell))) {
        assert forall|i: int, j: int| 0 <= i < all.len() && 0 <= j < all.len() && i != j implies all[i]
            != all[j] by {
            if i < a.len() && j >= a.len() {
                assert(a.contains(a[i]) && b.contains(b[j - a.len()]));
            }
            if j < a.len() && i >= a.len() {
                assert(a.contains(a[j]) && b.contains(b[i - a.len()]));
            }
        }
    }
}

/// One more element of `cells` taken adds that element to what is held.
pub proof fn lemma_take_contains(cells: Seq<(i128, i128)>, n: int)
    requires
        0 <= n < cells.len(),
    ensures
        forall|cell: (i128, i128)| #[trigger]
            cells.take(n + 1).contains(cell) <==> (cells.take(n).contains(cell) || cell
                == cells[n]),
        cells.no_duplicates() ==> !cells.take(n).contains(cells[n]),
{
    lemma_push_contains(cells.take(n), cells[n]);
    assert(cells.take(n).push(cells[n]) =~= cells.take(n + 1));
    if cells.no_duplicates() && cells.take(n).contains(cells[n]) {
        let k = choose|k: int| 0 <= k < cells.take(n).len() && cells.take(n)[k] == cells[n];
        assert(cells[k] == cells[n]);
    }
}

/// To keep some of a sequence with one more element is to keep some of the
/// sequence, and the element if it passes.
pub proof fn lemma_filter_push(
    cells: Seq<(i128, i128)>,
    cell: (i128, i128),
    keep: spec_fn((i128, i128)) -> bool,
)
    ensures
        cells.push(cell).filter(keep) == if keep(cell) {
            cells.filter(keep).push(cell)
        } else {
            cells.filter(keep)
        },
{
    reveal(Seq::filter);
    assert(cells.push(cell).drop_last() =~= cells);
}

/// Where every element passes, all are kept.
pub proof fn lemma_filter_all(cells: Seq<(i128, i128)>, keep: spec_fn((i128, i128)) -> bool)
    requires
        forall|i: int| 0 <= i < cells.len() ==> keep(#[trigger] cells[i]),
    ensures
        cells.filter(keep) == cells,
    decreases cells.len(),
{
    reveal(Seq::filter);
    if cells.len() > 0 {
        lemma_filter_all(cells.drop_last(), keep);
        assert(cells.drop_last().push(cells.last()) =~= cells);
    }
}

/// Where no element passes, none is kept.
pub proof fn lemma_filter_none(cells: Seq<(i128, i128)>, keep: spec_fn((i128, i128)) -> bool)
    requires
        forall|i: int| 0 <= i < cells.len() ==> !keep(#[trigger] cells[i]),
    ensures
        cells.filter(keep) == Seq::<(i128, i128)>::empty(),
    decreases cells.len(),
{
    reveal(Seq::filter);
    if cells.len() > 0 {
        lemma_filter_none(cells.drop_last(), keep);
    }
}

/// Two tests that agree on every element keep the same.
pub proof fn lemma_filter_same(
    cells: Seq<(i128, i128)>,
    keep: spec_fn((i128, i128)) -> bool,
    other: spec_fn((i128, i128)) -> bool,
)
    requires
        forall|i: int| 0 <= i < cells.len() ==> keep(#[trigger] cells[i]) == other(cells[i]),
    ensures
        cells.filter(keep) == cells.filter(other),
    decreases cells.len(),
{
    reveal(Seq::filter);
    if cells.len() > 0 {
        lemma_filter_same(cells.drop_last(), keep, other);
    }
}

/// To keep by one test what was kept by another is to keep what passes both.
pub proof fn lemma_filter_twice(
    cells: Seq<(i128, i128)>,
    keep: spec_fn((i128, i128)) -> bool,
    then: spec_fn((i128, i128)) -> bool,
)
    ensures
        cells.filter(keep).filter(then) == cells.filter(
            |cell: (i128, i128)| keep(cell) && then(cell),
        ),
    decreases cells.len(),
{
    reveal(Seq::filter);
    if cells.len() > 0 {
        let front = cells.drop_last();
        lemma_filter_twice(front, keep, then);
        if keep(cells.last()) {
            lemma_filter_push(front.filter(keep), cells.last(), then);
        }
    }
}

/// What is kept of a sequence: its elements that pass, none of them twice
/// where none was there twice.
pub proof fn lemma_filter_contains(cells: Seq<(i128, i128)>, keep: spec_fn((i128, i128)) -> bool)
    ensures
        forall|cell: (i128, i128)| #[trigger]
            cells.filter(keep).contains(cell) <==> (cells.contains(cell) && keep(cell)),
        cells.no_duplicates() ==> cells.filter(keep).no_duplicates(),
    decreases cells.len(),
{
    if cells.len() == 0 {
        lemma_filter_all(cells, keep);
    } else {
        let front = cells.drop_last();
        let last = cells.last();
        lemma_filter_contains(front, keep);
        lemma_push_contains(front, last);
        lemma_push_contains(front.filter(keep), last);
        lemma_filter_push(front, last, keep);
        assert(front.push(last) =~= cells);
        assert forall|cell: (i128, i128)|
            cells.filter(keep).contains(cell) <==> (cells.contains(cell) && keep(cell)) by {
            assert(cells.contains(cell) <==> (front.contains(cell) || cell == last));
            assert(front.filter(keep).contains(cell) <==> (front.contains(cell) && keep(cell)));
        }
        if cells.no_duplicates() {
            assert forall|i: int, j: int|
                0 <= i < front.len() && 0 <= j < front.len() && i != j implies front[i]
                != front[j] by {
                assert(cells[i] != cells[j]);
            }
            if front.contains(last) {
                let k = choose|k: int| 0 <= k < front.len() && front[k] == last;
                assert(cells[k] == cells[cells.len() - 1]);
            }
        }
    }
}

} // verus!
