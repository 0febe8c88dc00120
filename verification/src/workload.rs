//! The measured workloads: counting the odd bytes of a nested matrix
//! by row-major and by column-major traversal. Both traversals are
//! proved to compute the same count.

use vstd::prelude::*;
use crate::reducer::count_odds;
use crate::reducer::count_odds_in;

verus! {

/// The rows of a nested matrix, as sequences of bytes.
pub open spec fn matrix_rows(m: &Vec<Vec<u8>>) -> Seq<Seq<u8>> {
    m@.map_values(|row: Vec<u8>| row@)
}

/// Number of odd bytes in all rows of a matrix.
pub open spec fn count_odds_matrix(rows: Seq<Seq<u8>>) -> int
    decreases rows.len(),
{
    if rows.len() == 0 {
        0
    } else {
        count_odds_matrix(rows.drop_last()) + count_odds(rows.last())
    }
}

/// Every row has exactly `cols` entries.
pub open spec fn rectangular(rows: Seq<Seq<u8>>, cols: int) -> bool {
    forall|i: int| 0 <= i < rows.len() ==> (#[trigger] rows[i]).len() == cols
}

/// The column count of a matrix: that of its first row.
pub open spec fn cols_of(rows: Seq<Seq<u8>>) -> int {
    if rows.len() == 0 {
        0
    } else {
        rows[0].len() as int
    }
}

/// A count of odd bytes is between zero and the number of bytes.
proof fn lemma_count_odds_range(s: Seq<u8>)
    ensures
        0 <= count_odds(s) <= s.len(),
    decreases s.len(),
{
    if s.len() > 0 {
        lemma_count_odds_range(s.drop_last());
    }
}

/// The odd count of the first `k` rows never exceeds that of the
/// whole matrix.
proof fn lemma_count_matrix_prefix_le(rows: Seq<Seq<u8>>, k: int)
    requires
        0 <= k <= rows.len(),
    ensures
        count_odds_matrix(rows.subrange(0, k)) <= count_odds_matrix(rows),
    decreases rows.len() - k,
{
    if k == rows.len() {
        assert(rows.subrange(0, k) =~= rows);
    } else {
        assert(rows.subrange(0, k + 1).drop_last() =~= rows.subrange(0, k));
        lemma_count_odds_range(rows.subrange(0, k + 1).last());
        lemma_count_matrix_prefix_le(rows, k + 1);
    }
}

/// Counts the odd bytes of `m` row by row, visiting each row once.
pub fn count_odds_row_major(m: &Vec<Vec<u8>>) -> (c: usize)
    requires
        count_odds_matrix(matrix_rows(m)) <= usize::MAX,
    ensures
        c == count_odds_matrix(matrix_rows(m)),
{
    let ghost rows = matrix_rows(m);
    let mut c: usize = 0;
    for r in 0..m.len()
        invariant
            rows == matrix_rows(m),
            rows.len() == m@.len(),
            count_odds_matrix(rows) <= usize::MAX,
            c == count_odds_matrix(rows.subrange(0, r as int)),
    {
        let row: &Vec<u8> = &m[r];
        let rc = count_odds_in(row.as_slice(), 0, row.len());
        proof {
            assert(row@.subrange(0, row@.len() as int) =~= row@);
            assert(rows.subrange(0, r + 1).drop_last() =~= rows.subrange(0, r as int));
            assert(rows.subrange(0, r + 1).last() == rows[r as int]);
            assert(rows[r as int] == m@[r as int]@);
            lemma_count_matrix_prefix_le(rows, r + 1);
        }
        c = c + rc;
    }
    proof {
        assert(rows.subrange(0, rows.len() as int) =~= rows);
    }
    c
}

/// Number of odd bytes among the first `j` entries of every row.
pub open spec fn count_odds_matrix_prefix(rows: Seq<Seq<u8>>, j: int) -> int
    decreases rows.len(),
{
    if rows.len() == 0 {
        0
    } else {
        count_odds_matrix_prefix(rows.drop_last(), j) + count_odds(rows.last().subrange(0, j))
    }
}

/// Number of odd bytes in column `j` among the first `r` rows.
pub open spec fn count_odds_col(rows: Seq<Seq<u8>>, j: int, r: int) -> int
    decreases r,
{
    if r <= 0 {
        0
    } else {
        count_odds_col(rows, j, r - 1) + if rows[r - 1][j] % 2 != 0 {
            1int
        } else {
            0int
        }
    }
}

/// A column count only looks at the first `r` rows, so dropping the
/// last row does not change it.
proof fn lemma_count_col_drop_last(rows: Seq<Seq<u8>>, j: int, r: int)
    requires
        0 <= r < rows.len(),
    ensures
        count_odds_col(rows.drop_last(), j, r) == count_odds_col(rows, j, r),
    decreases r,
{
    if r > 0 {
        lemma_count_col_drop_last(rows, j, r - 1);
    }
}

/// A column count is non-negative and grows with the row bound.
proof fn lemma_count_col_mono(rows: Seq<Seq<u8>>, j: int, r1: int, r2: int)
    requires
        r1 <= r2,
    ensures
        count_odds_col(rows, j, r1) <= count_odds_col(rows, j, r2),
    decreases r2 - r1,
{
    if r1 < r2 {
        lemma_count_col_mono(rows, j, r1, r2 - 1);
    }
}

/// Extending every row prefix by one column adds exactly that
/// column's odd count.
proof fn lemma_count_prefix_step(rows: Seq<Seq<u8>>, cols: int, j: int)
    requires
        rectangular(rows, cols),
        0 <= j < cols,
    ensures
        count_odds_matrix_prefix(rows, j + 1) == count_odds_matrix_prefix(rows, j)
            + count_odds_col(rows, j, rows.len() as int),
    decreases rows.len(),
{
    if rows.len() > 0 {
        let last = rows.last();
        lemma_count_prefix_step(rows.drop_last(), cols, j);
        lemma_count_col_drop_last(rows, j, rows.len() - 1);
        assert(last.subrange(0, j + 1).drop_last() =~= last.subrange(0, j));
        assert(last.subrange(0, j + 1).last() == last[j]);
    }
}

/// Taking all `cols` columns of every row counts the whole matrix.
proof fn lemma_count_prefix_full(rows: Seq<Seq<u8>>, cols: int)
    requires
        rectangular(rows, cols),
        0 <= cols,
    ensures
        count_odds_matrix_prefix(rows, cols) == count_odds_matrix(rows),
    decreases rows.len(),
{
    if rows.len() > 0 {
        lemma_count_prefix_full(rows.drop_last(), cols);
        assert(rows.last().subrange(0, cols) =~= rows.last());
    }
}

/// A column prefix count never exceeds the whole matrix count.
proof fn lemma_count_prefix_mono(rows: Seq<Seq<u8>>, cols: int, j: int)
    requires
        rectangular(rows, cols),
        0 <= j <= cols,
    ensures
        count_odds_matrix_prefix(rows, j) <= count_odds_matrix(rows),
    decreases cols - j,
{
    if j == cols {
        lemma_count_prefix_full(rows, cols);
    } else {
        lemma_count_prefix_step(rows, cols, j);
        lemma_count_col_mono(rows, j, 0, rows.len() as int);
        lemma_count_prefix_mono(rows, cols, j + 1);
    }
}

/// Counts the odd bytes of a rectangular matrix column by column.
/// Law: the column-major traversal computes the same count as the
/// row-major one.
pub fn count_odds_col_major(m: &Vec<Vec<u8>>) -> (c: usize)
    requires
        rectangular(matrix_rows(m), cols_of(matrix_rows(m))),
        count_odds_matrix(matrix_rows(m)) <= usize::MAX,
    ensures
        c == count_odds_matrix(matrix_rows(m)),
{
    let ghost rows = matrix_rows(m);
    if m.len() == 0 {
        return 0;
    }
    let cols = m[0].len();
    let mut c: usize = 0;
    proof {
        assert(count_odds_matrix_prefix(rows, 0) == 0) by {
            lemma_prefix_zero(rows);
        }
        lemma_count_matrix_nonneg(rows);
    }
    for j in 0..cols
        invariant
            rows == matrix_rows(m),
            rows.len() == m@.len(),
            m@.len() > 0,
            cols as int == cols_of(rows),
            rectangular(rows, cols as int),
            count_odds_matrix(rows) <= usize::MAX,
            c == count_odds_matrix_prefix(rows, j as int),
            c <= count_odds_matrix(rows),
    {
        proof {
            assert(count_odds_col(rows, j as int, 0) == 0);
            assert(c == count_odds_matrix_prefix(rows, j as int));
            assert(c <= count_odds_matrix(rows));
        }
        for r in 0..m.len()
            invariant
                rows == matrix_rows(m),
                rows.len() == m@.len(),
                m@.len() > 0,
                cols as int == cols_of(rows),
                0 <= j < cols,
                rectangular(rows, cols as int),
                count_odds_matrix(rows) <= usize::MAX,
                c == count_odds_matrix_prefix(rows, j as int) + count_odds_col(
                    rows,
                    j as int,
                    r as int,
                ),
                c <= count_odds_matrix(rows),
        {
            proof {
                assert(rows[r as int] == m@[r as int]@);
                lemma_count_col_mono(rows, j as int, r + 1, rows.len() as int);
                lemma_count_prefix_step(rows, cols as int, j as int);
                lemma_count_prefix_mono(rows, cols as int, j + 1);
            }
            let x = m[r][j];
            if x % 2 != 0 {
                c = c + 1;
            }
        }
        proof {
            lemma_count_prefix_step(rows, cols as int, j as int);
        }
    }
    proof {
        lemma_count_prefix_full(rows, cols as int);
    }
    c
}

/// A matrix's odd count is non-negative.
proof fn lemma_count_matrix_nonneg(rows: Seq<Seq<u8>>)
    ensures
        0 <= count_odds_matrix(rows),
    decreases rows.len(),
{
    if rows.len() > 0 {
        lemma_count_matrix_nonneg(rows.drop_last());
        lemma_count_odds_range(rows.last());
    }
}

/// An empty column prefix counts nothing.
proof fn lemma_prefix_zero(rows: Seq<Seq<u8>>)
    ensures
        count_odds_matrix_prefix(rows, 0) == 0,
    decreases rows.len(),
{
    if rows.len() > 0 {
        lemma_prefix_zero(rows.drop_last());
        assert(rows.last().subrange(0, 0) =~= Seq::<u8>::empty());
    }
}

} // verus!
