//! Blocks and segments: the immutable units of storage.
//!
//! A block is the physical unit: an identity, its rows, and their
//! statistics.  A "changed" block is always a new block under a new
//! identity, never an in-place edit.  A segment is a named list of blocks
//! with a merged summary, inserted between snapshot and block so that
//! mutating one block never rewrites the whole block list of a snapshot.

use vstd::prelude::*;
use crate::datum::{Datum, rows_have_width, rows_view};
use crate::stats::{
    ColumnStats, Statistics, StatsView, byte_size_of, cell_at, col_max, col_min, combine_stats,
    compute_stats, lemma_col_bounds, lemma_col_stats_append, max_datum, min_datum, spec_combine,
    spec_stats,
};

verus! {

/// Identity of a block: the writer (one mutation attempt) that produced
/// it, and a sequence number within that writer.  Writes are uniquely
/// named, so distinct writers never produce the same identity and retried
/// writes never collide.
#[derive(Clone, Copy, Debug, PartialEq, Eq, Hash, Structural)]
pub struct BlockId {
    pub writer: u64,
    pub seq: u64,
}

/// An immutable block: identity, row content, and summary statistics.
#[derive(Debug)]
pub struct Block {
    pub id: BlockId,
    pub rows: Vec<Vec<Datum>>,
    pub stats: Statistics,
}

/// Mathematical image of a [`Block`].
pub struct BlockView {
    pub id: BlockId,
    pub rows: Seq<Seq<Datum>>,
    pub stats: StatsView,
}

impl View for Block {
    type V = BlockView;

    open spec fn view(&self) -> BlockView {
        BlockView { id: self.id, rows: rows_view(self.rows@), stats: self.stats@ }
    }
}

impl BlockView {
    /// A well-formed block is non-empty, has `ncols` cells in every row,
    /// and carries exactly the statistics of its rows.
    pub open spec fn wf(self, ncols: nat) -> bool {
        &&& self.rows.len() > 0
        &&& rows_have_width(self.rows, ncols)
        &&& self.stats == spec_stats(self.rows, ncols)
    }
}

impl Clone for Block {
    fn clone(&self) -> (r: Self)
        ensures
            r@ == self@,
    {
        let r = Block {
            id: self.id,
            rows: copy_rows(&self.rows),
            stats: self.stats.clone(),
        };
        proof {
            assert(r@.rows =~= self@.rows);
        }
        r
    }
}

/// Copies a row cell for cell.
pub fn copy_row(row: &Vec<Datum>) -> (r: Vec<Datum>)
    ensures
        r@ == row@,
{
    let mut r: Vec<Datum> = Vec::new();
    let mut i: usize = 0;
    while i < row.len()
        invariant
            0 <= i <= row@.len(),
            r@ == row@.take(i as int),
        decreases row@.len() - i,
    {
        r.push(row[i]);
        assert(row@.take(i + 1) =~= row@.take(i as int).push(row@[i as int]));
        i = i + 1;
    }
    assert(row@.take(row@.len() as int) =~= row@);
    r
}

/// Copies a list of rows row for row.
pub fn copy_rows(rows: &Vec<Vec<Datum>>) -> (r: Vec<Vec<Datum>>)
    ensures
        rows_view(r@) == rows_view(rows@),
{
    let mut r: Vec<Vec<Datum>> = Vec::new();
    let mut i: usize = 0;
    while i < rows.len()
        invariant
            0 <= i <= rows@.len(),
            rows_view(r@) == rows_view(rows@).take(i as int),
        decreases rows@.len() - i,
    {
        let row = copy_row(&rows[i]);
        r.push(row);
        proof {
            assert(rows_view(r@) =~= rows_view(rows@).take(i as int).push(rows@[i as int]@));
            assert(rows_view(rows@).take(i + 1) =~= rows_view(rows@).take(i as int).push(
                rows@[i as int]@,
            ));
        }
        i = i + 1;
    }
    assert(rows_view(rows@).take(rows@.len() as int) =~= rows_view(rows@));
    r
}

/// Builds a block from its rows, computing the statistics.
pub fn make_block(id: BlockId, rows: Vec<Vec<Datum>>, ncols: usize) -> (b: Block)
    requires
        rows@.len() > 0,
        rows_have_width(rows_view(rows@), ncols as nat),
        rows@.len() <= u64::MAX,
        byte_size_of(rows@.len(), ncols as nat) <= u64::MAX,
    ensures
        b@.id == id,
        b@.rows == rows_view(rows@),
        b@.wf(ncols as nat),
{
    let stats = compute_stats(&rows, ncols);
    Block { id, rows, stats }
}

/// Returns the identity a block is addressed by.
pub fn block_id(b: &Block) -> (r: BlockId)
    ensures
        r == b.id,
{
    b.id
}

/// A range predicate on one column: satisfied by a row whose cell at
/// `column` is a non-null value in `low ..= high`.
#[derive(Clone, Copy, Debug, PartialEq, Eq, Structural)]
pub struct ColumnPredicate {
    pub column: u64,
    pub low: i64,
    pub high: i64,
}

/// Whether `row` satisfies `p`.
pub open spec fn row_satisfies(row: Seq<Datum>, p: ColumnPredicate) -> bool {
    cell_at(row, p.column as int) matches Datum::Int(v) && p.low <= v <= p.high
}

/// Whether statistics `s` admit a row satisfying `p`: the column exists,
/// holds some non-null value, and its value range intersects the
/// predicate's range.
pub open spec fn stats_admit(s: StatsView, p: ColumnPredicate) -> bool {
    &&& 0 <= p.column < s.cols.len()
    &&& s.cols[p.column as int].min matches Datum::Int(mn) && mn <= p.high
    &&& s.cols[p.column as int].max matches Datum::Int(mx) && mx >= p.low
}

/// Decides from the stored statistics alone whether `b` may hold a row
/// satisfying `p`.  Pruning is sound: a `false` answer proves that no row
/// of the block satisfies the predicate.
pub fn overlaps(b: &Block, p: ColumnPredicate, ncols: usize) -> (r: bool)
    requires
        b@.wf(ncols as nat),
    ensures
        r == stats_admit(b@.stats, p),
        !r ==> forall|i: int| 0 <= i < b@.rows.len() ==> !row_satisfies(#[trigger] b@.rows[i], p),
{
    proof {
        lemma_col_bounds(b@.rows, p.column as int);
    }
    if p.column >= b.stats.cols.len() as u64 {
        return false;
    }
    let c = b.stats.cols[p.column as usize];
    let lo_ok = match c.min {
        Datum::Null => false,
        Datum::Int(mn) => mn <= p.high,
    };
    let hi_ok = match c.max {
        Datum::Null => false,
        Datum::Int(mx) => mx >= p.low,
    };
    lo_ok && hi_ok
}

/// A segment: an immutable list of blocks and the merge of their
/// statistics.
#[derive(Debug)]
pub struct Segment {
    pub blocks: Vec<Block>,
    pub summary: Statistics,
}

/// Mathematical image of a [`Segment`].
pub struct SegmentView {
    pub blocks: Seq<BlockView>,
    pub summary: StatsView,
}

impl View for Segment {
    type V = SegmentView;

    open spec fn view(&self) -> SegmentView {
        SegmentView {
            blocks: self.blocks@.map_values(|b: Block| b@),
            summary: self.summary@,
        }
    }
}

/// The rows of a list of blocks, in order.
pub open spec fn blocks_rows(bs: Seq<BlockView>) -> Seq<Seq<Datum>>
    decreases bs.len(),
{
    if bs.len() == 0 {
        Seq::empty()
    } else {
        blocks_rows(bs.drop_last()) + bs.last().rows
    }
}

impl SegmentView {
    /// A well-formed segment is non-empty, all its blocks are well
    /// formed, and its summary is exactly the statistics of its rows.
    pub open spec fn wf(self, ncols: nat) -> bool {
        &&& self.blocks.len() > 0
        &&& forall|i: int| 0 <= i < self.blocks.len() ==> (#[trigger] self.blocks[i]).wf(ncols)
        &&& self.summary == spec_stats(blocks_rows(self.blocks), ncols)
    }
}

impl Clone for Segment {
    fn clone(&self) -> (r: Self)
        ensures
            r@ == self@,
    {
        let mut blocks: Vec<Block> = Vec::new();
        let mut i: usize = 0;
        while i < self.blocks.len()
            invariant
                0 <= i <= self.blocks@.len(),
                blocks@.map_values(|b: Block| b@) == self@.blocks.take(i as int),
            decreases self.blocks@.len() - i,
        {
            let b = self.blocks[i].clone();
            blocks.push(b);
            proof {
                assert(blocks@.map_values(|b: Block| b@) =~= self@.blocks.take(i as int).push(
                    self.blocks@[i as int]@,
                ));
                assert(self@.blocks.take(i + 1) =~= self@.blocks.take(i as int).push(
                    self.blocks@[i as int]@,
                ));
            }
            i = i + 1;
        }
        let r = Segment { blocks, summary: self.summary.clone() };
        proof {
            assert(self@.blocks.take(self.blocks@.len() as int) =~= self@.blocks);
        }
        r
    }
}

/// Combining statistics agrees with concatenating the rows they
/// summarize, as long as the combined counts fit the carrier type.
pub proof fn lemma_stats_concat(r1: Seq<Seq<Datum>>, r2: Seq<Seq<Datum>>, ncols: nat)
    requires
        r1.len() + r2.len() <= u64::MAX,
        byte_size_of((r1.len() + r2.len()) as nat, ncols) <= u64::MAX,
    ensures
        spec_combine(spec_stats(r1, ncols), spec_stats(r2, ncols)) == spec_stats(
            r1 + r2,
            ncols,
        ),
{
    assert forall|c: int| 0 <= c < ncols implies spec_combine(
        spec_stats(r1, ncols),
        spec_stats(r2, ncols),
    ).cols[c] == spec_stats(r1 + r2, ncols).cols[c] by {
        lemma_col_stats_append(r1, r2, c);
        lemma_col_nulls_le(r1, c);
        lemma_col_nulls_le(r2, c);
    }
    assert(spec_combine(spec_stats(r1, ncols), spec_stats(r2, ncols)).cols =~= spec_stats(
        r1 + r2,
        ncols,
    ).cols);
    assert((r1 + r2).len() == r1.len() + r2.len());
    assert(byte_size_of(r1.len(), ncols) + byte_size_of(r2.len(), ncols) == byte_size_of(
        (r1.len() + r2.len()) as nat,
        ncols,
    )) by (nonlinear_arith);
}

/// A column never holds more nulls than there are rows.
pub proof fn lemma_col_nulls_le(rows: Seq<Seq<Datum>>, c: int)
    ensures
        crate::stats::col_nulls(rows, c) <= rows.len(),
    decreases rows.len(),
{
    if rows.len() > 0 {
        lemma_col_nulls_le(rows.drop_last(), c);
    }
}

/// Builds a segment from its blocks, merging their statistics.
pub fn make_segment(blocks: Vec<Block>, ncols: usize) -> (s: Segment)
    requires
        blocks@.len() > 0,
        forall|i: int| 0 <= i < blocks@.len() ==> (#[trigger] blocks@[i]@).wf(ncols as nat),
        blocks_rows(blocks@.map_values(|b: Block| b@)).len() <= u64::MAX,
        byte_size_of(blocks_rows(blocks@.map_values(|b: Block| b@)).len(), ncols as nat)
            <= u64::MAX,
    ensures
        s@.blocks == blocks@.map_values(|b: Block| b@),
        s@.wf(ncols as nat),
{
    let ghost bv = blocks@.map_values(|b: Block| b@);
    let summary = merge_stats(&blocks, ncols);
    let s = Segment { blocks, summary };
    s
}

/// Rows of a prefix of blocks never outnumber the rows of all blocks.
pub proof fn lemma_blocks_rows_prefix_le(bs: Seq<BlockView>, i: int)
    requires
        0 <= i <= bs.len(),
    ensures
        blocks_rows(bs.take(i)).len() <= blocks_rows(bs).len(),
        blocks_rows(bs.take(i)).len() + bs[i as int].rows.len() == blocks_rows(
            bs.take(i + 1),
        ).len() || i == bs.len(),
    decreases bs.len() - i,
{
    if i < bs.len() {
        assert(bs.take(i + 1).drop_last() =~= bs.take(i));
        assert(bs.take(i + 1).last() == bs[i]);
        lemma_blocks_rows_prefix_le(bs, i + 1);
    } else {
        assert(bs.take(i) =~= bs);
    }
}

/// Merges the statistics of a list of blocks into the statistics of all
/// their rows.
pub fn merge_stats(blocks: &Vec<Block>, ncols: usize) -> (s: Statistics)
    requires
        forall|i: int| 0 <= i < blocks@.len() ==> (#[trigger] blocks@[i]@).wf(ncols as nat),
        blocks_rows(blocks@.map_values(|b: Block| b@)).len() <= u64::MAX,
        byte_size_of(blocks_rows(blocks@.map_values(|b: Block| b@)).len(), ncols as nat)
            <= u64::MAX,
    ensures
        s@ == spec_stats(blocks_rows(blocks@.map_values(|b: Block| b@)), ncols as nat),
{
    let ghost bv = blocks@.map_values(|b: Block| b@);
    let mut s = Statistics {
        row_count: 0,
        byte_size: 0,
        cols: empty_cols(ncols),
    };
    proof {
        assert(blocks_rows(bv.take(0)) =~= Seq::<Seq<Datum>>::empty());
        assert(s@.cols =~= spec_stats(blocks_rows(bv.take(0)), ncols as nat).cols);
    }
    let mut i: usize = 0;
    while i < blocks.len()
        invariant
            bv == blocks@.map_values(|b: Block| b@),
            forall|k: int| 0 <= k < bv.len() ==> (#[trigger] bv[k]).wf(ncols as nat),
            blocks_rows(bv).len() <= u64::MAX,
            byte_size_of(blocks_rows(bv).len(), ncols as nat) <= u64::MAX,
            0 <= i <= blocks@.len(),
            s@ == spec_stats(blocks_rows(bv.take(i as int)), ncols as nat),
        decreases blocks@.len() - i,
    {
        let ghost prefix = blocks_rows(bv.take(i as int));
        let ghost cur = bv[i as int].rows;
        proof {
            lemma_blocks_rows_prefix_le(bv, i as int);
            lemma_blocks_rows_prefix_le(bv, i + 1);
            assert(byte_size_of(prefix.len(), ncols as nat) <= byte_size_of(
                blocks_rows(bv).len(),
                ncols as nat,
            )) by (nonlinear_arith)
                requires
                    prefix.len() <= blocks_rows(bv).len(),
            ;
            assert(byte_size_of((prefix.len() + cur.len()) as nat, ncols as nat)
                <= byte_size_of(blocks_rows(bv).len(), ncols as nat)) by (nonlinear_arith)
                requires
                    prefix.len() + cur.len() <= blocks_rows(bv).len(),
            ;
            lemma_stats_concat(prefix, cur, ncols as nat);
            assert(bv.take(i + 1).drop_last() =~= bv.take(i as int));
            assert(blocks_rows(bv.take(i + 1)) == prefix + cur);
            assert forall|c: int| 0 <= c < ncols implies crate::stats::col_nulls(prefix, c)
                + crate::stats::col_nulls(cur, c) <= u64::MAX by {
                lemma_col_nulls_le(prefix, c);
                lemma_col_nulls_le(cur, c);
            }
        }
        s = combine_stats(&s, &blocks[i].stats);
        i = i + 1;
    }
    proof {
        assert(bv.take(blocks@.len() as int) =~= bv);
    }
    s
}

/// One all-null, zero-count column summary per column.
fn empty_cols(ncols: usize) -> (r: Vec<ColumnStats>)
    ensures
        r@ == Seq::new(
            ncols as nat,
            |c: int| ColumnStats { min: Datum::Null, max: Datum::Null, null_count: 0 },
        ),
{
    let mut r: Vec<ColumnStats> = Vec::new();
    let mut i: usize = 0;
    while i < ncols
        invariant
            0 <= i <= ncols,
            r@.len() == i,
            forall|k: int|
                0 <= k < i ==> #[trigger] r@[k] == (ColumnStats {
                    min: Datum::Null,
                    max: Datum::Null,
                    null_count: 0,
                }),
        decreases ncols - i,
    {
        r.push(ColumnStats { min: Datum::Null, max: Datum::Null, null_count: 0 });
        i = i + 1;
    }
    proof {
        assert(r@ =~= Seq::new(
            ncols as nat,
            |c: int| ColumnStats { min: Datum::Null, max: Datum::Null, null_count: 0 },
        ));
    }
    r
}

} // verus!
