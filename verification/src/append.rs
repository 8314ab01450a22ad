//! The append stage: packing insert-designated rows into new blocks.
//!
//! Unmatched source rows become new blocks of at most a configured number
//! of rows each, under fresh sequentially numbered identities of the
//! mutation's writer.  The physical write of each block is the caller's;
//! this stage decides the blocks' content, identities and statistics.

use vstd::prelude::*;
use crate::datum::{Datum, rows_have_width, rows_view};
use crate::block::{Block, BlockId, blocks_rows, copy_row, make_block};
use crate::stats::byte_size_of;

verus! {

/// The least of two lengths.
pub open spec fn spec_min(a: int, b: int) -> int {
    if a <= b {
        a
    } else {
        b
    }
}

/// Packs `rows` into blocks of at most `cap` rows, numbered
/// `(writer, start_seq)`, `(writer, start_seq + 1)`, and so on.
///
/// Block `k` holds exactly the rows `k * cap .. min((k + 1) * cap, n)`,
/// so every block but the last is full, the concatenation of the blocks'
/// rows is `rows` itself, and re-running over equal rows reproduces
/// identical blocks up to their identities.
pub fn build_blocks(
    rows: &Vec<Vec<Datum>>,
    ncols: usize,
    cap: usize,
    writer: u64,
    start_seq: u64,
) -> (r: Vec<Block>)
    requires
        cap >= 1,
        rows_have_width(rows_view(rows@), ncols as nat),
        rows@.len() <= u64::MAX,
        start_seq + rows@.len() <= u64::MAX,
        byte_size_of(cap as nat, ncols as nat) <= u64::MAX,
    ensures
        ({
            let av = r@.map_values(|b: Block| b@);
            let rv = rows_view(rows@);
            let n = rv.len() as int;
            &&& blocks_rows(av) == rv
            &&& forall|k: int|
                0 <= k < av.len() ==> (#[trigger] av[k]).rows == rv.subrange(
                    k * (cap as int),
                    spec_min((k + 1) * (cap as int), n),
                )
            &&& forall|k: int|
                0 <= k < av.len() ==> (#[trigger] av[k]).id == (BlockId {
                    writer,
                    seq: (start_seq + k) as u64,
                })
            &&& forall|k: int| 0 <= k < av.len() ==> (#[trigger] av[k]).wf(ncols as nat)
            &&& forall|k: int|
                0 <= k < av.len() ==> 1 <= (#[trigger] av[k]).rows.len() <= cap
            &&& forall|k: int| 0 <= k < av.len() ==> #[trigger] (k * (cap as int)) < n
            &&& av.len() <= rv.len()
            &&& (rv.len() == 0 ==> av.len() == 0)
            &&& (rv.len() > 0 ==> av.len() * (cap as int) >= rv.len())
        }),
{
    let ghost rv = rows_view(rows@);
    let n = rows.len();
    let mut out: Vec<Block> = Vec::new();
    proof {
        assert(out@.map_values(|b: Block| b@) =~= Seq::<crate::block::BlockView>::empty());
        assert(out@.len() * (cap as int) == 0);
        assert(rv.take(0) =~= Seq::<Seq<Datum>>::empty());
        assert(blocks_rows(Seq::<crate::block::BlockView>::empty()) =~= Seq::<Seq<Datum>>::empty());
    }
    let mut i: usize = 0;
    while i < n
        invariant
            rv == rows_view(rows@),
            rows_have_width(rv, ncols as nat),
            cap >= 1,
            n == rv.len() <= u64::MAX,
            start_seq + n <= u64::MAX,
            byte_size_of(cap as nat, ncols as nat) <= u64::MAX,
            0 <= i <= n,
            i == spec_min(out@.len() * (cap as int), n as int),
            out@.len() <= i,
            blocks_rows(out@.map_values(|b: Block| b@)) == rv.take(i as int),
            forall|k: int|
                0 <= k < out@.len() ==> (#[trigger] out@[k]@).rows == rv.subrange(
                    k * (cap as int),
                    spec_min((k + 1) * (cap as int), n as int),
                ),
            forall|k: int|
                0 <= k < out@.len() ==> (#[trigger] out@[k]@).id == (BlockId {
                    writer,
                    seq: (start_seq + k) as u64,
                }),
            forall|k: int| 0 <= k < out@.len() ==> (#[trigger] out@[k]@).wf(ncols as nat),
            forall|k: int| 0 <= k < out@.len() ==> 1 <= (#[trigger] out@[k]@).rows.len() <= cap,
            forall|k: int| 0 <= k < out@.len() ==> #[trigger] (k * (cap as int)) < n,
        decreases n - i,
    {
        let remaining = n - i;
        let sz = if cap < remaining {
            cap
        } else {
            remaining
        };
        let mut chunk: Vec<Vec<Datum>> = Vec::new();
        let mut j: usize = 0;
        while j < sz
            invariant
                rv == rows_view(rows@),
                0 <= i,
                i + sz <= n == rv.len(),
                0 <= j <= sz,
                rows_view(chunk@) == rv.subrange(i as int, i + j),
            decreases sz - j,
        {
            let row = copy_row(&rows[i + j]);
            chunk.push(row);
            proof {
                assert(rows_view(chunk@) =~= rv.subrange(i as int, i + j).push(rv[i + j]));
                assert(rv.subrange(i as int, i + j + 1) =~= rv.subrange(i as int, i + j).push(
                    rv[i + j],
                ));
            }
            j = j + 1;
        }
        let ghost pre = out@.map_values(|b: Block| b@);
        proof {
            assert forall|t: int|
                0 <= t < rows_view(chunk@).len() implies (#[trigger] rows_view(chunk@)[t]).len()
                == ncols by {
                assert(rows_view(chunk@)[t] == rv[i + t]);
            }
            assert(byte_size_of(chunk@.len(), ncols as nat) <= byte_size_of(
                cap as nat,
                ncols as nat,
            )) by (nonlinear_arith)
                requires
                    chunk@.len() <= cap as nat,
            ;
            assert(out@.len() * (cap as int) == i) by (nonlinear_arith)
                requires
                    i == spec_min(out@.len() * (cap as int), n as int),
                    (i as int) < (n as int),
            ;
        }
        let id = BlockId { writer, seq: start_seq + (out.len() as u64) };
        let b = make_block(id, chunk, ncols);
        out.push(b);
        proof {
            let post = out@.map_values(|b: Block| b@);
            assert(post =~= pre.push(out@.last()@));
            assert(post.drop_last() =~= pre);
            assert(blocks_rows(post) == blocks_rows(pre) + post.last().rows);
            assert(rv.take(i as int) + rv.subrange(i as int, i + sz) =~= rv.take(i + sz));
            assert forall|k: int|
                0 <= k < post.len() implies (#[trigger] post[k]).rows == rv.subrange(
                k * (cap as int),
                spec_min((k + 1) * (cap as int), n as int),
            ) by {
                if k < pre.len() {
                    assert(post[k] == pre[k]);
                } else {
                    assert(post[k] == post.last());
                    assert(k == pre.len());
                    assert(k * (cap as int) == i) by (nonlinear_arith)
                        requires
                            k == pre.len(),
                            i == spec_min(pre.len() * (cap as int), n as int),
                            i < n,
                            pre.len() * (cap as int) >= 0,
                    ;
                    assert((k + 1) * (cap as int) == i + cap) by (nonlinear_arith)
                        requires
                            k * (cap as int) == i,
                    ;
                    assert(i + sz == spec_min(i + cap, n as int));
                }
            }
            assert(i + sz == spec_min(post.len() * (cap as int), n as int)) by (nonlinear_arith)
                requires
                    post.len() == pre.len() + 1,
                    pre.len() * (cap as int) == i,
                    sz == spec_min(cap as int, n - i),
            ;
        }
        i = i + sz;
    }
    proof {
        assert(rv.take(n as int) =~= rv);
        if rv.len() > 0 {
            assert(out@.len() * (cap as int) >= n) by (nonlinear_arith)
                requires
                    n as int == spec_min(out@.len() * (cap as int), n as int),
            ;
        }
    }
    out
}

/// The append stage of one mutation: carries the writer identity, the
/// next block number, and the block capacity.
#[derive(Debug)]
pub struct AppendTransform {
    /// The mutation's writer id; every produced block is named under it.
    pub writer: u64,
    /// Number the next produced block takes.
    pub next_seq: u64,
    /// Greatest number of rows per produced block.
    pub max_rows_per_block: usize,
    /// The table's width.
    pub ncols: usize,
}

impl AppendTransform {
    /// Creates an append stage.
    pub fn create(writer: u64, start_seq: u64, max_rows_per_block: usize, ncols: usize) -> (r:
        Self)
        requires
            max_rows_per_block >= 1,
        ensures
            r.writer == writer,
            r.next_seq == start_seq,
            r.max_rows_per_block == max_rows_per_block,
            r.ncols == ncols,
    {
        AppendTransform { writer, next_seq: start_seq, max_rows_per_block, ncols }
    }

    /// Packs a batch of insert-designated rows into new blocks and
    /// advances the block numbering past them.
    pub fn transform(&mut self, rows: &Vec<Vec<Datum>>) -> (r: Vec<Block>)
        requires
            old(self).max_rows_per_block >= 1,
            rows_have_width(rows_view(rows@), old(self).ncols as nat),
            rows@.len() <= u64::MAX,
            old(self).next_seq + rows@.len() <= u64::MAX,
            byte_size_of(old(self).max_rows_per_block as nat, old(self).ncols as nat)
                <= u64::MAX,
        ensures
            final(self).writer == old(self).writer,
            final(self).max_rows_per_block == old(self).max_rows_per_block,
            final(self).ncols == old(self).ncols,
            final(self).next_seq == old(self).next_seq + r@.len(),
            ({
                let av = r@.map_values(|b: Block| b@);
                let rv = rows_view(rows@);
                &&& blocks_rows(av) == rv
                &&& forall|k: int|
                    0 <= k < av.len() ==> (#[trigger] av[k]).id == (BlockId {
                        writer: old(self).writer,
                        seq: (old(self).next_seq + k) as u64,
                    })
                &&& forall|k: int| 0 <= k < av.len() ==> (#[trigger] av[k]).wf(
                    old(self).ncols as nat,
                )
                &&& forall|k: int|
                    0 <= k < av.len() ==> 1 <= (#[trigger] av[k]).rows.len()
                        <= old(self).max_rows_per_block
                &&& av.len() <= rv.len()
            }),
    {
        let r = build_blocks(rows, self.ncols, self.max_rows_per_block, self.writer, self.next_seq);
        self.next_seq = self.next_seq + (r.len() as u64);
        r
    }
}

} // verus!
