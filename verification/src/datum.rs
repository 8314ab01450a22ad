//! Cell values and rows.
//!
//! A cell is either a null or a 64-bit integer; a row is one cell per
//! column.  Rows are the unit the on-conflict matcher and the block
//! rewriter reason about.

use vstd::prelude::*;

verus! {

/// One cell of a row: a null or an integer value.
#[derive(Clone, Copy, Debug, PartialEq, Eq, Structural)]
pub enum Datum {
    Null,
    Int(i64),
}

/// The sequence-of-sequences view of a vector of rows.
pub open spec fn rows_view(rows: Seq<Vec<Datum>>) -> Seq<Seq<Datum>> {
    rows.map_values(|r: Vec<Datum>| r@)
}

/// Every row of `rows` has exactly `ncols` cells.
pub open spec fn rows_have_width(rows: Seq<Seq<Datum>>, ncols: nat) -> bool {
    forall|i: int| 0 <= i < rows.len() ==> #[trigger] rows[i].len() == ncols
}

/// Cell equality.
pub fn datum_eq(a: &Datum, b: &Datum) -> (r: bool)
    ensures
        r == (a == b),
{
    match (a, b) {
        (Datum::Null, Datum::Null) => true,
        (Datum::Int(x), Datum::Int(y)) => x == y,
        _ => false,
    }
}

/// Row equality, cell for cell.
pub fn row_eq(a: &Vec<Datum>, b: &Vec<Datum>) -> (r: bool)
    ensures
        r == (a@ == b@),
{
    if a.len() != b.len() {
        return false;
    }
    let n = a.len();
    let mut i: usize = 0;
    while i < n
        invariant
            n == a.len() == b.len(),
            0 <= i <= n,
            forall|k: int| 0 <= k < i ==> a@[k] == b@[k],
        decreases n - i,
    {
        if !datum_eq(&a[i], &b[i]) {
            assert(a@ != b@);
            return false;
        }
        i = i + 1;
    }
    assert(a@ =~= b@);
    true
}

} // verus!
