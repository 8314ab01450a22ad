//! Block and segment summary statistics.
//!
//! Every block carries, per column, the minimum and maximum non-null value
//! and the number of nulls, next to a row count and a byte size.  The
//! statistics of a list of blocks or segments merge column-wise, and the
//! merge of the parts equals the statistics of the concatenated rows.

use vstd::prelude::*;
use crate::datum::{Datum, rows_have_width, rows_view};

verus! {

/// Per-column summary: least and greatest non-null value (`Null` when the
/// column holds no non-null value) and the number of nulls.
#[derive(Clone, Copy, Debug, PartialEq, Eq, Structural)]
pub struct ColumnStats {
    pub min: Datum,
    pub max: Datum,
    pub null_count: u64,
}

/// Summary of a set of rows: row count, byte size, and one
/// [`ColumnStats`] per column.
#[derive(Debug)]
pub struct Statistics {
    pub row_count: u64,
    pub byte_size: u64,
    pub cols: Vec<ColumnStats>,
}

/// Mathematical image of a [`Statistics`] value.
pub struct StatsView {
    pub row_count: int,
    pub byte_size: int,
    pub cols: Seq<ColumnStats>,
}

impl View for Statistics {
    type V = StatsView;

    open spec fn view(&self) -> StatsView {
        StatsView {
            row_count: self.row_count as int,
            byte_size: self.byte_size as int,
            cols: self.cols@,
        }
    }
}

impl Clone for Statistics {
    fn clone(&self) -> (r: Self)
        ensures
            r@ == self@,
    {
        Statistics {
            row_count: self.row_count,
            byte_size: self.byte_size,
            cols: copy_col_stats(&self.cols),
        }
    }
}

fn copy_col_stats(cols: &Vec<ColumnStats>) -> (r: Vec<ColumnStats>)
    ensures
        r@ == cols@,
{
    let mut r: Vec<ColumnStats> = Vec::new();
    let mut i: usize = 0;
    while i < cols.len()
        invariant
            0 <= i <= cols@.len(),
            r@ == cols@.take(i as int),
        decreases cols@.len() - i,
    {
        r.push(cols[i]);
        assert(cols@.take(i + 1 as int) =~= cols@.take(i as int).push(cols@[i as int]));
        i = i + 1;
    }
    assert(cols@.take(cols@.len() as int) =~= cols@);
    r
}

/// The cell of `row` at column `c`, or `Null` out of range.
pub open spec fn cell_at(row: Seq<Datum>, c: int) -> Datum {
    if 0 <= c < row.len() {
        row[c]
    } else {
        Datum::Null
    }
}

/// The lesser of two cells, treating `Null` as the absence of a value.
pub open spec fn min_datum(a: Datum, b: Datum) -> Datum {
    match (a, b) {
        (Datum::Null, _) => b,
        (_, Datum::Null) => a,
        (Datum::Int(x), Datum::Int(y)) => if x <= y {
            a
        } else {
            b
        },
    }
}

/// The greater of two cells, treating `Null` as the absence of a value.
pub open spec fn max_datum(a: Datum, b: Datum) -> Datum {
    match (a, b) {
        (Datum::Null, _) => b,
        (_, Datum::Null) => a,
        (Datum::Int(x), Datum::Int(y)) => if x >= y {
            a
        } else {
            b
        },
    }
}

/// Least non-null value of column `c` over `rows`; `Null` if none.
pub open spec fn col_min(rows: Seq<Seq<Datum>>, c: int) -> Datum
    decreases rows.len(),
{
    if rows.len() == 0 {
        Datum::Null
    } else {
        min_datum(col_min(rows.drop_last(), c), cell_at(rows.last(), c))
    }
}

/// Greatest non-null value of column `c` over `rows`; `Null` if none.
pub open spec fn col_max(rows: Seq<Seq<Datum>>, c: int) -> Datum
    decreases rows.len(),
{
    if rows.len() == 0 {
        Datum::Null
    } else {
        max_datum(col_max(rows.drop_last(), c), cell_at(rows.last(), c))
    }
}

/// Number of nulls in column `c` over `rows`.
pub open spec fn col_nulls(rows: Seq<Seq<Datum>>, c: int) -> nat
    decreases rows.len(),
{
    if rows.len() == 0 {
        0
    } else {
        col_nulls(rows.drop_last(), c) + (if cell_at(rows.last(), c) is Null {
            1nat
        } else {
            0nat
        })
    }
}

/// Bytes a set of rows occupies: eight bytes per cell.
pub open spec fn byte_size_of(nrows: nat, ncols: nat) -> nat {
    8 * ncols * nrows
}

/// The exact statistics of `rows` under a width of `ncols` columns.
pub open spec fn spec_stats(rows: Seq<Seq<Datum>>, ncols: nat) -> StatsView {
    StatsView {
        row_count: rows.len() as int,
        byte_size: byte_size_of(rows.len(), ncols) as int,
        cols: Seq::new(
            ncols,
            |c: int|
                ColumnStats {
                    min: col_min(rows, c),
                    max: col_max(rows, c),
                    null_count: col_nulls(rows, c) as u64,
                },
        ),
    }
}

/// Computes the statistics of `rows`, one column at a time.
pub fn compute_stats(rows: &Vec<Vec<Datum>>, ncols: usize) -> (s: Statistics)
    requires
        rows_have_width(rows_view(rows@), ncols as nat),
        rows@.len() <= u64::MAX,
        byte_size_of(rows@.len(), ncols as nat) <= u64::MAX,
    ensures
        s@ == spec_stats(rows_view(rows@), ncols as nat),
{
    let ghost rv = rows_view(rows@);
    let nrows = rows.len();
    let mut cols: Vec<ColumnStats> = Vec::new();
    let mut c: usize = 0;
    while c < ncols
        invariant
            rv == rows_view(rows@),
            rows_have_width(rv, ncols as nat),
            nrows == rows@.len(),
            0 <= c <= ncols,
            cols@.len() == c,
            forall|k: int|
                0 <= k < c ==> #[trigger] cols@[k] == (ColumnStats {
                    min: col_min(rv, k),
                    max: col_max(rv, k),
                    null_count: col_nulls(rv, k) as u64,
                }),
        decreases ncols - c,
    {
        let mut mn = Datum::Null;
        let mut mx = Datum::Null;
        let mut nulls: u64 = 0;
        let mut i: usize = 0;
        while i < nrows
            invariant
                rv == rows_view(rows@),
                rows_have_width(rv, ncols as nat),
                nrows == rows@.len() <= u64::MAX,
                0 <= c < ncols,
                0 <= i <= nrows,
                mn == col_min(rv.take(i as int), c as int),
                mx == col_max(rv.take(i as int), c as int),
                nulls == col_nulls(rv.take(i as int), c as int),
                nulls <= i,
            decreases nrows - i,
        {
            assert(rv[i as int].len() == ncols);
            assert(rv[i as int] == rows@[i as int]@);
            let cell = rows[i][c];
            assert(cell == cell_at(rv[i as int], c as int));
            proof {
                assert(rv.take(i + 1).drop_last() =~= rv.take(i as int));
                assert(rv.take(i + 1).last() == rv[i as int]);
            }
            match cell {
                Datum::Null => {
                    nulls = nulls + 1;
                },
                Datum::Int(v) => {
                    mn = match mn {
                        Datum::Null => Datum::Int(v),
                        Datum::Int(m) => if v < m {
                            Datum::Int(v)
                        } else {
                            Datum::Int(m)
                        },
                    };
                    mx = match mx {
                        Datum::Null => Datum::Int(v),
                        Datum::Int(m) => if v > m {
                            Datum::Int(v)
                        } else {
                            Datum::Int(m)
                        },
                    };
                },
            }
            i = i + 1;
        }
        proof {
            assert(rv.take(nrows as int) =~= rv);
        }
        cols.push(ColumnStats { min: mn, max: mx, null_count: nulls });
        c = c + 1;
    }
    let row_count = nrows as u64;
    proof {
        let cn = ncols as nat;
        let rn = rows@.len();
        assert(cn * rn <= 8 * cn * rn && cn * rn * 8 == 8 * cn * rn) by (nonlinear_arith);
    }
    let prod = (ncols as u64) * row_count;
    let byte_size = prod * 8;
    let s = Statistics { row_count, byte_size, cols };
    proof {
        assert(s@.cols =~= spec_stats(rv, ncols as nat).cols);
    }
    s
}

/// Column-wise merge of the statistics of two disjoint row sets.
pub open spec fn spec_combine(a: StatsView, b: StatsView) -> StatsView {
    StatsView {
        row_count: a.row_count + b.row_count,
        byte_size: a.byte_size + b.byte_size,
        cols: Seq::new(
            a.cols.len(),
            |c: int|
                ColumnStats {
                    min: min_datum(a.cols[c].min, b.cols[c].min),
                    max: max_datum(a.cols[c].max, b.cols[c].max),
                    null_count: (a.cols[c].null_count + b.cols[c].null_count) as u64,
                },
        ),
    }
}

/// Merges two summaries of disjoint row sets into the summary of their union.
pub fn combine_stats(a: &Statistics, b: &Statistics) -> (s: Statistics)
    requires
        a.cols@.len() == b.cols@.len(),
        a.row_count + b.row_count <= u64::MAX,
        a.byte_size + b.byte_size <= u64::MAX,
        forall|c: int|
            0 <= c < a.cols@.len() ==> #[trigger] a.cols@[c].null_count + b.cols@[c].null_count
                <= u64::MAX,
    ensures
        s@ == spec_combine(a@, b@),
{
    let n = a.cols.len();
    let mut cols: Vec<ColumnStats> = Vec::new();
    let mut c: usize = 0;
    while c < n
        invariant
            n == a.cols@.len() == b.cols@.len(),
            forall|k: int|
                0 <= k < n ==> #[trigger] a.cols@[k].null_count + b.cols@[k].null_count
                    <= u64::MAX,
            0 <= c <= n,
            cols@.len() == c,
            forall|k: int| 0 <= k < c ==> #[trigger] cols@[k] == spec_combine(a@, b@).cols[k],
        decreases n - c,
    {
        let ca = a.cols[c];
        let cb = b.cols[c];
        let mn = match (ca.min, cb.min) {
            (Datum::Null, m) => m,
            (m, Datum::Null) => m,
            (Datum::Int(x), Datum::Int(y)) => if x <= y {
                Datum::Int(x)
            } else {
                Datum::Int(y)
            },
        };
        let mx = match (ca.max, cb.max) {
            (Datum::Null, m) => m,
            (m, Datum::Null) => m,
            (Datum::Int(x), Datum::Int(y)) => if x >= y {
                Datum::Int(x)
            } else {
                Datum::Int(y)
            },
        };
        cols.push(ColumnStats { min: mn, max: mx, null_count: ca.null_count + cb.null_count });
        c = c + 1;
    }
    let s = Statistics {
        row_count: a.row_count + b.row_count,
        byte_size: a.byte_size + b.byte_size,
        cols,
    };
    proof {
        assert(s@.cols =~= spec_combine(a@, b@).cols);
    }
    s
}

/// Merging is concatenation: the column minimum over `r1 + r2` is the
/// merge of the two column minimums, and likewise for maximum and nulls.
pub proof fn lemma_col_stats_append(r1: Seq<Seq<Datum>>, r2: Seq<Seq<Datum>>, c: int)
    ensures
        col_min(r1 + r2, c) == min_datum(col_min(r1, c), col_min(r2, c)),
        col_max(r1 + r2, c) == max_datum(col_max(r1, c), col_max(r2, c)),
        col_nulls(r1 + r2, c) == col_nulls(r1, c) + col_nulls(r2, c),
    decreases r2.len(),
{
    if r2.len() == 0 {
        assert(r1 + r2 =~= r1);
    } else {
        lemma_col_stats_append(r1, r2.drop_last(), c);
        assert((r1 + r2).drop_last() =~= r1 + r2.drop_last());
        assert((r1 + r2).last() == r2.last());
    }
}

/// The column minimum is a lower bound and the column maximum an upper
/// bound on every non-null cell of the column.
pub proof fn lemma_col_bounds(rows: Seq<Seq<Datum>>, c: int)
    ensures
        forall|i: int|
            0 <= i < rows.len() ==> ((#[trigger] cell_at(rows[i], c)) matches Datum::Int(v)
                ==> {
                    &&& col_min(rows, c) matches Datum::Int(m) && m <= v
                    &&& col_max(rows, c) matches Datum::Int(m) && m >= v
                }),
    decreases rows.len(),
{
    if rows.len() > 0 {
        lemma_col_bounds(rows.drop_last(), c);
        assert(forall|i: int|
            0 <= i < rows.len() - 1 ==> rows.drop_last()[i] == #[trigger] rows[i]);
    }
}

} // verus!
