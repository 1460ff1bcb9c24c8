//! Rectangular grids held as rows of cells, and counting over them.

use crate::vector2::{on_grid, Vector2};
use vstd::prelude::*;

verus! {

/// Every row has `columns` cells and there are `rows` of them.
pub open spec fn rectangular<T>(g: Seq<Vec<T>>, rows: usize, columns: usize) -> bool {
    &&& g.len() == rows
    &&& forall|i: int| 0 <= i < g.len() ==> (#[trigger] g[i]).len() == columns
}

/// The cell at a position.
pub open spec fn cell_at<T>(g: Seq<Vec<T>>, p: Vector2) -> T {
    g[p.x as int][p.y as int]
}

/// `after` is `before` with the cell at `p` replaced.
pub open spec fn one_cell_changed<T>(before: Seq<Vec<T>>, after: Seq<Vec<T>>, p: Vector2) -> bool {
    &&& after.len() == before.len()
    &&& p.x < before.len()
    &&& p.y < before[p.x as int].len()
    &&& after[p.x as int]@ == before[p.x as int]@.update(p.y as int, after[p.x as int][p.y as int])
    &&& forall|i: int| 0 <= i < before.len() && i != p.x ==> after[i] == before[i]
}

/// Number of cells of a row that satisfy `f`.
pub open spec fn count_row<T>(row: Seq<T>, f: spec_fn(T) -> bool) -> nat
    decreases row.len(),
{
    if row.len() == 0 {
        0
    } else {
        count_row(row.drop_last(), f) + if f(row.last()) {
            1nat
        } else {
            0nat
        }
    }
}

/// Number of cells of a grid that satisfy `f`.
pub open spec fn count_grid<T>(g: Seq<Vec<T>>, f: spec_fn(T) -> bool) -> nat
    decreases g.len(),
{
    if g.len() == 0 {
        0
    } else {
        count_grid(g.drop_last(), f) + count_row(g.last()@, f)
    }
}

/// Replacing one cell of a row changes the count by what the old and the new cell contribute.
pub proof fn lemma_count_row_update<T>(row: Seq<T>, j: int, v: T, f: spec_fn(T) -> bool)
    requires
        0 <= j < row.len(),
    ensures
        count_row(row.update(j, v), f) + (if f(row[j]) {
            1nat
        } else {
            0nat
        }) == count_row(row, f) + (if f(v) {
            1nat
        } else {
            0nat
        }),
    decreases row.len(),
{
    let after = row.update(j, v);
    if j == row.len() - 1 {
        assert(after.drop_last() =~= row.drop_last());
    } else {
        assert(after.drop_last() =~= row.drop_last().update(j, v));
        lemma_count_row_update(row.drop_last(), j, v, f);
    }
}

/// At most every cell of a row satisfies `f`; if all do, the count is the length of the
/// row, and if none does, it is 0.
pub proof fn lemma_count_row_bounds<T>(row: Seq<T>, f: spec_fn(T) -> bool)
    ensures
        count_row(row, f) <= row.len(),
        (forall|j: int| 0 <= j < row.len() ==> f(#[trigger] row[j])) ==> count_row(row, f)
            == row.len(),
        (forall|j: int| 0 <= j < row.len() ==> !f(#[trigger] row[j])) ==> count_row(row, f) == 0,
    decreases row.len(),
{
    if row.len() > 0 {
        lemma_count_row_bounds(row.drop_last(), f);
        assert(forall|j: int|
            0 <= j < row.drop_last().len() ==> #[trigger] row.drop_last()[j] == row[j]);
    }
}

/// Replacing one cell changes the count by what the old and the new cell contribute.
pub proof fn lemma_count_grid_change<T>(
    before: Seq<Vec<T>>,
    after: Seq<Vec<T>>,
    p: Vector2,
    f: spec_fn(T) -> bool,
)
    requires
        one_cell_changed(before, after, p),
    ensures
        count_grid(after, f) + (if f(cell_at(before, p)) {
            1nat
        } else {
            0nat
        }) == count_grid(before, f) + (if f(cell_at(after, p)) {
            1nat
        } else {
            0nat
        }),
    decreases before.len(),
{
    if p.x == before.len() - 1 {
        assert(after.drop_last() =~= before.drop_last());
        lemma_count_row_update(before[p.x as int]@, p.y as int, after[p.x as int][p.y as int], f);
    } else {
        assert(one_cell_changed(before.drop_last(), after.drop_last(), p));
        lemma_count_grid_change(before.drop_last(), after.drop_last(), p, f);
    }
}

/// At most every cell satisfies `f`; if all do, the count is the number of cells.
pub proof fn lemma_count_grid_bounds<T>(
    g: Seq<Vec<T>>,
    rows: usize,
    columns: usize,
    f: spec_fn(T) -> bool,
)
    requires
        rectangular(g, rows, columns),
    ensures
        count_grid(g, f) <= rows * columns,
        (forall|p: Vector2| on_grid(p, rows, columns) ==> f(#[trigger] cell_at(g, p)))
            ==> count_grid(g, f) == rows * columns,
        (forall|p: Vector2| on_grid(p, rows, columns) ==> !f(#[trigger] cell_at(g, p)))
            ==> count_grid(g, f) == 0,
    decreases g.len(),
{
    if g.len() > 0 {
        let last = (rows - 1) as usize;
        assert(rectangular(g.drop_last(), last, columns));
        lemma_count_grid_bounds(g.drop_last(), last, columns, f);
        lemma_count_row_bounds(g.last()@, f);
        assert(rows * columns == last * columns + columns) by (nonlinear_arith)
            requires
                rows == last + 1,
        ;
        if forall|p: Vector2| on_grid(p, rows, columns) ==> f(#[trigger] cell_at(g, p)) {
            assert forall|p: Vector2| on_grid(p, last, columns) implies f(
                #[trigger] cell_at(g.drop_last(), p),
            ) by {
                assert(cell_at(g.drop_last(), p) == cell_at(g, p));
            }
            assert forall|j: int| 0 <= j < g.last()@.len() implies f(#[trigger] g.last()@[j]) by {
                let p = Vector2 { x: last, y: j as usize };
                assert(cell_at(g, p) == g.last()@[j]);
            }
        }
        if forall|p: Vector2| on_grid(p, rows, columns) ==> !f(#[trigger] cell_at(g, p)) {
            assert forall|p: Vector2| on_grid(p, last, columns) implies !f(
                #[trigger] cell_at(g.drop_last(), p),
            ) by {
                assert(cell_at(g.drop_last(), p) == cell_at(g, p));
            }
            assert forall|j: int| 0 <= j < g.last()@.len() implies !f(#[trigger] g.last()@[j]) by {
                let p = Vector2 { x: last, y: j as usize };
                assert(cell_at(g, p) == g.last()@[j]);
            }
        }
    } else {
        assert(rows * columns == 0) by (nonlinear_arith)
            requires
                rows == 0,
        ;
    }
}

/// Whether a grid is rectangular, and its size if it is and has a cell.
pub fn dimensions<T>(g: &Vec<Vec<T>>) -> (d: Option<(usize, usize)>)
    ensures
        match d {
            Some((rows, columns)) => rows > 0 && columns > 0 && rectangular(g@, rows, columns),
            None => g.len() == 0 || g[0].len() == 0 || exists|i: int|
                0 <= i < g.len() && (#[trigger] g[i]).len() != g[0].len(),
        },
{
    if g.len() == 0 {
        return None;
    }
    let columns = g[0].len();
    if columns == 0 {
        return None;
    }
    let mut i: usize = 1;
    while i < g.len()
        invariant
            1 <= i <= g.len(),
            columns == g[0].len(),
            forall|k: int| 0 <= k < i ==> (#[trigger] g[k]).len() == columns,
        decreases g.len() - i,
    {
        if g[i].len() != columns {
            return None;
        }
        i += 1;
    }
    Some((g.len(), columns))
}

/// Rows that agree cell by cell on `f` count the same.
pub proof fn lemma_count_row_same<T>(a: Seq<T>, b: Seq<T>, f: spec_fn(T) -> bool)
    requires
        a.len() == b.len(),
        forall|j: int| 0 <= j < a.len() ==> f(#[trigger] a[j]) == f(b[j]),
    ensures
        count_row(a, f) == count_row(b, f),
    decreases a.len(),
{
    if a.len() > 0 {
        assert(f(a[a.len() - 1]) == f(b[a.len() - 1]));
        assert forall|j: int| 0 <= j < a.drop_last().len() implies f(#[trigger] a.drop_last()[j])
            == f(b.drop_last()[j]) by {
            assert(f(a[j]) == f(b[j]));
        }
        lemma_count_row_same(a.drop_last(), b.drop_last(), f);
    }
}

/// Grids that agree cell by cell on `f` count the same.
pub proof fn lemma_count_grid_same<T>(
    a: Seq<Vec<T>>,
    b: Seq<Vec<T>>,
    rows: usize,
    columns: usize,
    f: spec_fn(T) -> bool,
)
    requires
        rectangular(a, rows, columns),
        rectangular(b, rows, columns),
        forall|p: Vector2|
            on_grid(p, rows, columns) ==> f(#[trigger] cell_at(a, p)) == f(cell_at(b, p)),
    ensures
        count_grid(a, f) == count_grid(b, f),
    decreases a.len(),
{
    if a.len() > 0 {
        let last = (rows - 1) as usize;
        assert(rectangular(a.drop_last(), last, columns));
        assert(rectangular(b.drop_last(), last, columns));
        assert forall|p: Vector2| on_grid(p, last, columns) implies f(
            #[trigger] cell_at(a.drop_last(), p),
        ) == f(cell_at(b.drop_last(), p)) by {
            assert(cell_at(a.drop_last(), p) == cell_at(a, p));
            assert(cell_at(b.drop_last(), p) == cell_at(b, p));
        }
        lemma_count_grid_same(a.drop_last(), b.drop_last(), last, columns, f);
        assert forall|j: int| 0 <= j < a.last()@.len() implies f(#[trigger] a.last()@[j]) == f(
            b.last()@[j],
        ) by {
            let p = Vector2 { x: last, y: j as usize };
            assert(cell_at(a, p) == a.last()@[j]);
            assert(cell_at(b, p) == b.last()@[j]);
        }
        lemma_count_row_same(a.last()@, b.last()@, f);
    }
}

} // verus!
