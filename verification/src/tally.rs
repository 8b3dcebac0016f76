//! Counting the `true` cells of a grid of booleans.

use vstd::prelude::*;

verus! {

/// One for `true`, zero for `false`.
pub open spec fn one_if(b: bool) -> int {
    if b {
        1
    } else {
        0
    }
}

/// The number of `true` cells in a row.
pub open spec fn row_tally(row: Seq<bool>) -> int
    decreases row.len(),
{
    if row.len() == 0 {
        0
    } else {
        row_tally(row.drop_last()) + one_if(row.last())
    }
}

/// The number of `true` cells in a grid.
pub open spec fn tally(rows: Seq<Seq<bool>>) -> int
    decreases rows.len(),
{
    if rows.len() == 0 {
        0
    } else {
        tally(rows.drop_last()) + row_tally(rows.last())
    }
}

/// Every row of the grid has `width` cells.
pub open spec fn rows_of(rows: Seq<Seq<bool>>, width: int) -> bool {
    forall|y: int| 0 <= y < rows.len() ==> (#[trigger] rows[y]).len() == width
}

/// A row holds between zero and its length `true` cells.
pub proof fn lemma_row_tally_bounds(row: Seq<bool>)
    ensures
        0 <= row_tally(row) <= row.len(),
    decreases row.len(),
{
    if row.len() > 0 {
        lemma_row_tally_bounds(row.drop_last());
    }
}

/// A row without a `true` cell counts zero, and only such a row does.
pub proof fn lemma_row_tally_zero(row: Seq<bool>)
    ensures
        row_tally(row) == 0 <==> (forall|x: int| 0 <= x < row.len() ==> !row[x]),
    decreases row.len(),
{
    if row.len() > 0 {
        let front = row.drop_last();
        lemma_row_tally_zero(front);
        lemma_row_tally_bounds(front);
        if row_tally(row) == 0 {
            assert forall|x: int| 0 <= x < row.len() implies !row[x] by {
                if x < row.len() - 1 {
                    assert(front[x] == row[x]);
                }
            }
        } else {
            if forall|x: int| 0 <= x < row.len() ==> !row[x] {
                assert forall|x: int| 0 <= x < front.len() implies !front[x] by {
                    assert(front[x] == row[x]);
                }
                assert(!row[row.len() - 1]);
            }
        }
    }
}

/// Writing one cell of a row changes the count by what the cell gains or
/// loses.
pub proof fn lemma_row_tally_update(row: Seq<bool>, x: int, value: bool)
    requires
        0 <= x < row.len(),
    ensures
        row_tally(row.update(x, value)) == row_tally(row) - one_if(row[x]) + one_if(value),
    decreases row.len(),
{
    if x == row.len() - 1 {
        assert(row.update(x, value).drop_last() =~= row.drop_last());
    } else {
        assert(row.update(x, value).drop_last() =~= row.drop_last().update(x, value));
        lemma_row_tally_update(row.drop_last(), x, value);
    }
}

/// Replacing one row of a grid changes the count by the difference between
/// the two rows.
pub proof fn lemma_tally_update(rows: Seq<Seq<bool>>, y: int, row: Seq<bool>)
    requires
        0 <= y < rows.len(),
    ensures
        tally(rows.update(y, row)) == tally(rows) - row_tally(rows[y]) + row_tally(row),
    decreases rows.len(),
{
    if y == rows.len() - 1 {
        assert(rows.update(y, row).drop_last() =~= rows.drop_last());
    } else {
        assert(rows.update(y, row).drop_last() =~= rows.drop_last().update(y, row));
        lemma_tally_update(rows.drop_last(), y, row);
    }
}

/// Writing one cell of a grid changes the count by what the cell gains or
/// loses.
pub proof fn lemma_tally_set(rows: Seq<Seq<bool>>, x: int, y: int, value: bool)
    requires
        0 <= y < rows.len(),
        0 <= x < rows[y].len(),
    ensures
        tally(rows.update(y, rows[y].update(x, value))) == tally(rows) - one_if(rows[y][x])
            + one_if(value),
{
    lemma_row_tally_update(rows[y], x, value);
    lemma_tally_update(rows, y, rows[y].update(x, value));
}

/// A grid holds between zero and `width` times its height `true` cells.
pub proof fn lemma_tally_bounds(rows: Seq<Seq<bool>>, width: int)
    requires
        rows_of(rows, width),
    ensures
        0 <= tally(rows) <= rows.len() * width,
    decreases rows.len(),
{
    if rows.len() > 0 {
        let front = rows.drop_last();
        assert forall|y: int| 0 <= y < front.len() implies (#[trigger] front[y]).len()
            == width by {
            assert(front[y] == rows[y]);
        }
        lemma_tally_bounds(front, width);
        lemma_row_tally_bounds(rows.last());
        assert(rows.last() == rows[rows.len() - 1]);
        assert(front.len() * width + width == rows.len() * width) by (nonlinear_arith)
            requires
                front.len() + 1 == rows.len(),
        ;
    } else {
        assert(rows.len() * width == 0) by (nonlinear_arith)
            requires
                rows.len() == 0,
        ;
    }
}

/// A grid without a `true` cell counts zero, and only such a grid does.
pub proof fn lemma_tally_zero(rows: Seq<Seq<bool>>)
    ensures
        tally(rows) == 0 <==> (forall|x: int, y: int|
            0 <= y < rows.len() && 0 <= x < rows[y].len() ==> !#[trigger] rows[y][x]),
    decreases rows.len(),
{
    if rows.len() > 0 {
        let front = rows.drop_last();
        let last = rows.last();
        lemma_tally_zero(front);
        lemma_row_tally_zero(last);
        lemma_row_tally_bounds(last);
        assert(tally(front) >= 0) by {
            lemma_tally_nonnegative(front);
        }
        if tally(rows) == 0 {
            assert forall|x: int, y: int|
                0 <= y < rows.len() && 0 <= x < rows[y].len() implies !#[trigger] rows[y][x] by {
                if y < rows.len() - 1 {
                    assert(front[y] == rows[y]);
                    assert(!front[y][x]);
                } else {
                    assert(!last[x]);
                }
            }
        } else {
            if forall|x: int, y: int|
                0 <= y < rows.len() && 0 <= x < rows[y].len() ==> !#[trigger] rows[y][x] {
                assert forall|x: int, y: int|
                    0 <= y < front.len() && 0 <= x < front[y].len() implies !#[trigger] front[y][x]
                by {
                    assert(front[y] == rows[y]);
                    assert(!rows[y][x]);
                }
                assert forall|x: int| 0 <= x < last.len() implies !last[x] by {
                    assert(!rows[rows.len() - 1][x]);
                }
            }
        }
    }
}

/// Where each cell of a grid is `true` in exactly one of two parts or in
/// neither, the grid counts as much as both parts together.
pub proof fn lemma_tally_split(whole: Seq<Seq<bool>>, left: Seq<Seq<bool>>, right: Seq<Seq<bool>>)
    requires
        whole.len() == left.len(),
        whole.len() == right.len(),
        forall|y: int|
            0 <= y < whole.len() ==> (#[trigger] whole[y]).len() == left[y].len() && whole[y].len()
                == right[y].len(),
        forall|x: int, y: int|
            0 <= y < whole.len() && 0 <= x < whole[y].len() ==> one_if(#[trigger] whole[y][x])
                == one_if(left[y][x]) + one_if(right[y][x]),
    ensures
        tally(whole) == tally(left) + tally(right),
    decreases whole.len(),
{
    if whole.len() > 0 {
        let n = whole.len() - 1;
        assert forall|y: int| 0 <= y < n implies (#[trigger] whole.drop_last()[y]).len()
            == left.drop_last()[y].len() && whole.drop_last()[y].len()
            == right.drop_last()[y].len() by {
            assert(whole.drop_last()[y] == whole[y]);
        }
        assert forall|x: int, y: int|
            0 <= y < n && 0 <= x < whole.drop_last()[y].len() implies one_if(
            #[trigger] whole.drop_last()[y][x],
        ) == one_if(left.drop_last()[y][x]) + one_if(right.drop_last()[y][x]) by {
            assert(whole.drop_last()[y] == whole[y]);
            assert(one_if(whole[y][x]) == one_if(left[y][x]) + one_if(right[y][x]));
        }
        lemma_tally_split(whole.drop_last(), left.drop_last(), right.drop_last());
        assert(whole[n].len() == left[n].len());
        assert forall|x: int| 0 <= x < whole[n].len() implies one_if(#[trigger] whole[n][x])
            == one_if(left[n][x]) + one_if(right[n][x]) by {
            assert(one_if(whole[n][x]) == one_if(left[n][x]) + one_if(right[n][x]));
        }
        lemma_row_tally_split(whole[n], left[n], right[n]);
    }
}

/// Where each cell of a row is `true` in exactly one of two parts or in
/// neither, the row counts as much as both parts together.
pub proof fn lemma_row_tally_split(whole: Seq<bool>, left: Seq<bool>, right: Seq<bool>)
    requires
        whole.len() == left.len(),
        whole.len() == right.len(),
        forall|x: int|
            0 <= x < whole.len() ==> one_if(#[trigger] whole[x]) == one_if(left[x]) + one_if(
                right[x],
            ),
    ensures
        row_tally(whole) == row_tally(left) + row_tally(right),
    decreases whole.len(),
{
    if whole.len() > 0 {
        let n = whole.len() - 1;
        assert forall|x: int| 0 <= x < n implies one_if(#[trigger] whole.drop_last()[x]) == one_if(
            left.drop_last()[x],
        ) + one_if(right.drop_last()[x]) by {
            assert(one_if(whole[x]) == one_if(left[x]) + one_if(right[x]));
        }
        lemma_row_tally_split(whole.drop_last(), left.drop_last(), right.drop_last());
        assert(one_if(whole[n]) == one_if(left[n]) + one_if(right[n]));
    }
}

/// A row of `true` cells counts its length.
pub proof fn lemma_row_tally_full(row: Seq<bool>)
    requires
        forall|x: int| 0 <= x < row.len() ==> #[trigger] row[x],
    ensures
        row_tally(row) == row.len(),
    decreases row.len(),
{
    if row.len() > 0 {
        assert forall|x: int| 0 <= x < row.len() - 1 implies #[trigger] row.drop_last()[x] by {
            assert(row[x]);
        }
        lemma_row_tally_full(row.drop_last());
        assert(row[row.len() - 1]);
    }
}

/// A grid of `true` cells counts its width times its height.
pub proof fn lemma_tally_full(rows: Seq<Seq<bool>>, width: int)
    requires
        rows_of(rows, width),
        forall|x: int, y: int| 0 <= y < rows.len() && 0 <= x < width ==> #[trigger] rows[y][x],
    ensures
        tally(rows) == rows.len() * width,
    decreases rows.len(),
{
    if rows.len() > 0 {
        let front = rows.drop_last();
        let n = rows.len() - 1;
        assert forall|y: int| 0 <= y < front.len() implies (#[trigger] front[y]).len()
            == width by {
            assert(front[y] == rows[y]);
        }
        assert forall|x: int, y: int|
            0 <= y < front.len() && 0 <= x < width implies #[trigger] front[y][x] by {
            assert(front[y] == rows[y]);
            assert(rows[y][x]);
        }
        lemma_tally_full(front, width);
        assert(rows[n].len() == width);
        assert forall|x: int| 0 <= x < rows[n].len() implies #[trigger] rows[n][x] by {
            assert(rows[n][x]);
        }
        lemma_row_tally_full(rows[n]);
        assert(front.len() * width + width == rows.len() * width) by (nonlinear_arith)
            requires
                front.len() + 1 == rows.len(),
        ;
    } else {
        assert(rows.len() * width == 0) by (nonlinear_arith)
            requires
                rows.len() == 0,
        ;
    }
}

/// No grid counts less than zero.
pub proof fn lemma_tally_nonnegative(rows: Seq<Seq<bool>>)
    ensures
        0 <= tally(rows),
    decreases rows.len(),
{
    if rows.len() > 0 {
        lemma_tally_nonnegative(rows.drop_last());
        lemma_row_tally_bounds(rows.last());
    }
}

} // verus!
