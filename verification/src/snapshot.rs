//! Table snapshots and the current-snapshot pointer.
//!
//! A snapshot is a versioned, immutable description of a table's full
//! content: an ordered segment list, merged summary statistics, and a
//! reference to its predecessor.  The only mutable state in the whole
//! engine is the table's current-snapshot pointer, advanced by
//! compare-and-swap; [`TablePointer`] is the reference model of that
//! collaborator's contract.

use vstd::prelude::*;
use crate::datum::Datum;
use crate::block::{
    Block, BlockId, BlockView, Segment, SegmentView, blocks_rows, lemma_stats_concat,
};
use crate::stats::{Statistics, StatsView, byte_size_of, spec_stats, combine_stats};

verus! {

/// A versioned, immutable description of a table's full content.
#[derive(Debug)]
pub struct TableSnapshot {
    /// Unique id of this snapshot.
    pub id: u64,
    /// Monotonically increasing version counter.
    pub timestamp: u64,
    /// Id of the immediate predecessor snapshot, if any.
    pub prev: Option<u64>,
    /// Ordered list of segments.
    pub segments: Vec<Segment>,
    /// Merge of all segment statistics.
    pub summary: Statistics,
}

/// Mathematical image of a [`TableSnapshot`].
pub struct SnapshotView {
    pub id: u64,
    pub timestamp: u64,
    pub prev: Option<u64>,
    pub segments: Seq<SegmentView>,
    pub summary: StatsView,
}

impl View for TableSnapshot {
    type V = SnapshotView;

    open spec fn view(&self) -> SnapshotView {
        SnapshotView {
            id: self.id,
            timestamp: self.timestamp,
            prev: self.prev,
            segments: self.segments@.map_values(|s: Segment| s@),
            summary: self.summary@,
        }
    }
}

/// All blocks of a segment list, in order.
pub open spec fn all_blocks(segs: Seq<SegmentView>) -> Seq<BlockView>
    decreases segs.len(),
{
    if segs.len() == 0 {
        Seq::empty()
    } else {
        all_blocks(segs.drop_last()) + segs.last().blocks
    }
}

/// All rows of a segment list, in order.
pub open spec fn seg_rows(segs: Seq<SegmentView>) -> Seq<Seq<Datum>> {
    blocks_rows(all_blocks(segs))
}

impl SnapshotView {
    /// A well-formed snapshot has well-formed segments and a summary that
    /// is exactly the statistics of all its rows.
    pub open spec fn wf(self, ncols: nat) -> bool {
        &&& forall|i: int| 0 <= i < self.segments.len() ==> (#[trigger] self.segments[i]).wf(ncols)
        &&& self.summary == spec_stats(seg_rows(self.segments), ncols)
    }

    /// The rows of the whole table, in order.
    pub open spec fn rows(self) -> Seq<Seq<Datum>> {
        seg_rows(self.segments)
    }

    /// The blocks of the whole table, in order.
    pub open spec fn blocks(self) -> Seq<BlockView> {
        all_blocks(self.segments)
    }
}

impl Clone for TableSnapshot {
    fn clone(&self) -> (r: Self)
        ensures
            r@ == self@,
    {
        let mut segments: Vec<Segment> = Vec::new();
        let mut i: usize = 0;
        while i < self.segments.len()
            invariant
                0 <= i <= self.segments@.len(),
                segments@.map_values(|s: Segment| s@) == self@.segments.take(i as int),
            decreases self.segments@.len() - i,
        {
            let s = self.segments[i].clone();
            segments.push(s);
            proof {
                assert(segments@.map_values(|s: Segment| s@) =~= self@.segments.take(
                    i as int,
                ).push(self.segments@[i as int]@));
                assert(self@.segments.take(i + 1) =~= self@.segments.take(i as int).push(
                    self.segments@[i as int]@,
                ));
            }
            i = i + 1;
        }
        let r = TableSnapshot {
            id: self.id,
            timestamp: self.timestamp,
            prev: self.prev,
            segments,
            summary: self.summary.clone(),
        };
        proof {
            assert(self@.segments.take(self.segments@.len() as int) =~= self@.segments);
        }
        r
    }
}

/// Concatenating segment lists concatenates their block lists.
pub proof fn lemma_all_blocks_concat(a: Seq<SegmentView>, b: Seq<SegmentView>)
    ensures
        all_blocks(a + b) == all_blocks(a) + all_blocks(b),
    decreases b.len(),
{
    if b.len() == 0 {
        assert(a + b =~= a);
        assert(all_blocks(a) + all_blocks(b) =~= all_blocks(a));
    } else {
        lemma_all_blocks_concat(a, b.drop_last());
        assert((a + b).drop_last() =~= a + b.drop_last());
        assert((a + b).last() == b.last());
        assert(all_blocks(a) + all_blocks(b.drop_last()) + b.last().blocks =~= all_blocks(a) + (
        all_blocks(b.drop_last()) + b.last().blocks));
    }
}

/// Concatenating block lists concatenates their rows.
pub proof fn lemma_blocks_rows_concat(a: Seq<BlockView>, b: Seq<BlockView>)
    ensures
        blocks_rows(a + b) == blocks_rows(a) + blocks_rows(b),
    decreases b.len(),
{
    if b.len() == 0 {
        assert(a + b =~= a);
        assert(blocks_rows(a) + blocks_rows(b) =~= blocks_rows(a));
    } else {
        lemma_blocks_rows_concat(a, b.drop_last());
        assert((a + b).drop_last() =~= a + b.drop_last());
        assert((a + b).last() == b.last());
        assert(blocks_rows(a) + blocks_rows(b.drop_last()) + b.last().rows =~= blocks_rows(a) + (
        blocks_rows(b.drop_last()) + b.last().rows));
    }
}

/// A segment list splits, around any position, into its prefix, the
/// segment there, and its suffix.
pub proof fn lemma_all_blocks_split(segs: Seq<SegmentView>, s: int)
    requires
        0 <= s < segs.len(),
    ensures
        all_blocks(segs) == all_blocks(segs.take(s)) + segs[s].blocks + all_blocks(
            segs.skip(s + 1),
        ),
{
    assert(segs =~= segs.take(s) + seq![segs[s]] + segs.skip(s + 1));
    lemma_all_blocks_concat(segs.take(s) + seq![segs[s]], segs.skip(s + 1));
    lemma_all_blocks_concat(segs.take(s), seq![segs[s]]);
    assert(seq![segs[s]].drop_last() =~= Seq::<SegmentView>::empty());
    assert(all_blocks(Seq::<SegmentView>::empty()) =~= Seq::<BlockView>::empty());
    assert(all_blocks(seq![segs[s]]) =~= segs[s].blocks);
}

/// The first block of `bs` carrying `id`, if any.
pub open spec fn find_block_spec(bs: Seq<BlockView>, id: BlockId) -> Option<BlockView>
    decreases bs.len(),
{
    if bs.len() == 0 {
        None
    } else if bs.first().id == id {
        Some(bs.first())
    } else {
        find_block_spec(bs.drop_first(), id)
    }
}

/// `id` occurs among the blocks `bs`.
pub open spec fn has_block_id(bs: Seq<BlockView>, id: BlockId) -> bool {
    exists|i: int| 0 <= i < bs.len() && bs[i].id == id
}

/// The lookup succeeds exactly on the ids that occur, and returns the
/// first occurrence.
pub proof fn lemma_find_block_char(bs: Seq<BlockView>, id: BlockId)
    ensures
        find_block_spec(bs, id) is Some <==> has_block_id(bs, id),
        find_block_spec(bs, id) matches Some(b) ==> exists|i: int|
            0 <= i < bs.len() && bs[i] == b && bs[i].id == id,
    decreases bs.len(),
{
    if bs.len() > 0 {
        lemma_find_block_char(bs.drop_first(), id);
        assert(forall|i: int|
            0 <= i < bs.drop_first().len() ==> #[trigger] bs.drop_first()[i] == bs[i + 1]);
        if bs.first().id == id {
            assert(bs[0].id == id);
        } else if has_block_id(bs, id) {
            let i = choose|i: int| 0 <= i < bs.len() && bs[i].id == id;
            assert(bs.drop_first()[i - 1].id == id);
        }
    }
}

/// Lookup at a known first occurrence.
pub proof fn lemma_find_block_at(bs: Seq<BlockView>, id: BlockId, i: int)
    requires
        0 <= i < bs.len(),
        bs[i].id == id,
        forall|k: int| 0 <= k < i ==> bs[k].id != id,
    ensures
        find_block_spec(bs, id) == Some(bs[i]),
    decreases i,
{
    assert(forall|k: int|
        0 <= k < bs.drop_first().len() ==> #[trigger] bs.drop_first()[k] == bs[k + 1]);
    if i > 0 {
        lemma_find_block_at(bs.drop_first(), id, i - 1);
    }
}

/// Lookup misses when the id occurs nowhere.
pub proof fn lemma_find_block_none(bs: Seq<BlockView>, id: BlockId)
    requires
        forall|k: int| 0 <= k < bs.len() ==> (#[trigger] bs[k]).id != id,
    ensures
        find_block_spec(bs, id) is None,
    decreases bs.len(),
{
    if bs.len() > 0 {
        assert(forall|k: int|
            0 <= k < bs.drop_first().len() ==> #[trigger] bs.drop_first()[k] == bs[k + 1]);
        lemma_find_block_none(bs.drop_first(), id);
    }
}

/// Finds the block carrying `id` in a snapshot, walking segments in
/// order.
pub fn find_block(snap: &TableSnapshot, id: BlockId) -> (r: Option<Block>)
    ensures
        match r {
            Some(b) => find_block_spec(snap@.blocks(), id) == Some(b@),
            None => find_block_spec(snap@.blocks(), id) is None,
        },
{
    let ghost segs = snap@.segments;
    let mut s: usize = 0;
    while s < snap.segments.len()
        invariant
            segs == snap@.segments,
            0 <= s <= segs.len(),
            forall|k: int|
                0 <= k < all_blocks(segs.take(s as int)).len() ==> (#[trigger] all_blocks(
                    segs.take(s as int),
                )[k]).id != id,
        decreases segs.len() - s,
    {
        let ghost prefix = all_blocks(segs.take(s as int));
        let blocks = &snap.segments[s].blocks;
        let mut j: usize = 0;
        while j < blocks.len()
            invariant
                segs == snap@.segments,
                0 <= s < segs.len(),
                blocks@.map_values(|b: Block| b@) == segs[s as int].blocks,
                0 <= j <= blocks@.len(),
                forall|k: int|
                    0 <= k < j ==> (#[trigger] segs[s as int].blocks[k]).id != id,
                forall|k: int|
                    0 <= k < prefix.len() ==> (#[trigger] prefix[k]).id != id,
                prefix == all_blocks(segs.take(s as int)),
            decreases blocks@.len() - j,
        {
            if blocks[j].id.writer == id.writer && blocks[j].id.seq == id.seq {
                let found = blocks[j].clone();
                proof {
                    lemma_all_blocks_split(segs, s as int);
                    let flat = all_blocks(segs);
                    let fi = prefix.len() + j;
                    assert(flat[fi as int] == segs[s as int].blocks[j as int]);
                    assert forall|k: int| 0 <= k < fi implies flat[k].id != id by {
                        if k < prefix.len() {
                            assert(flat[k] == prefix[k]);
                        } else {
                            assert(flat[k] == segs[s as int].blocks[k - prefix.len()]);
                        }
                    }
                    lemma_find_block_at(flat, id, fi as int);
                }
                return Some(found);
            }
            j = j + 1;
        }
        proof {
            assert(segs.take(s + 1).drop_last() =~= segs.take(s as int));
            assert(segs.take(s + 1).last() == segs[s as int]);
            assert forall|k: int|
                0 <= k < all_blocks(segs.take(s + 1)).len() implies (#[trigger] all_blocks(
                segs.take(s + 1),
            )[k]).id != id by {
                assert(all_blocks(segs.take(s + 1)) == prefix + segs[s as int].blocks);
                if k < prefix.len() {
                    assert(all_blocks(segs.take(s + 1))[k] == prefix[k]);
                } else {
                    assert(all_blocks(segs.take(s + 1))[k] == segs[s as int].blocks[k
                        - prefix.len()]);
                }
            }
        }
        s = s + 1;
    }
    proof {
        assert(segs.take(segs.len() as int) =~= segs);
        lemma_find_block_none(all_blocks(segs), id);
    }
    None
}

/// Merges the summaries of a segment list into the statistics of all
/// their rows.
pub fn merge_segment_stats(segs: &Vec<Segment>, ncols: usize) -> (s: Statistics)
    requires
        forall|i: int| 0 <= i < segs@.len() ==> (#[trigger] segs@[i]@).wf(ncols as nat),
        seg_rows(segs@.map_values(|s: Segment| s@)).len() <= u64::MAX,
        byte_size_of(seg_rows(segs@.map_values(|s: Segment| s@)).len(), ncols as nat)
            <= u64::MAX,
    ensures
        s@ == spec_stats(seg_rows(segs@.map_values(|s: Segment| s@)), ncols as nat),
{
    let ghost sv = segs@.map_values(|s: Segment| s@);
    let no_blocks: Vec<Block> = Vec::new();
    proof {
        assert(no_blocks@.map_values(|b: Block| b@) =~= Seq::<BlockView>::empty());
        assert(blocks_rows(Seq::<BlockView>::empty()) =~= Seq::<Seq<Datum>>::empty());
        assert(byte_size_of(0, ncols as nat) == 0) by (nonlinear_arith);
        assert(seg_rows(sv.take(0)) =~= Seq::<Seq<Datum>>::empty());
    }
    let mut s = crate::block::merge_stats(&no_blocks, ncols);
    let mut i: usize = 0;
    while i < segs.len()
        invariant
            sv == segs@.map_values(|s: Segment| s@),
            forall|k: int| 0 <= k < sv.len() ==> (#[trigger] sv[k]).wf(ncols as nat),
            seg_rows(sv).len() <= u64::MAX,
            byte_size_of(seg_rows(sv).len(), ncols as nat) <= u64::MAX,
            0 <= i <= sv.len(),
            s@ == spec_stats(seg_rows(sv.take(i as int)), ncols as nat),
        decreases sv.len() - i,
    {
        let ghost prefix = seg_rows(sv.take(i as int));
        let ghost cur = blocks_rows(sv[i as int].blocks);
        proof {
            assert(sv.take(i + 1).drop_last() =~= sv.take(i as int));
            assert(sv.take(i + 1).last() == sv[i as int]);
            lemma_all_blocks_concat(sv.take(i as int), seq![sv[i as int]]);
            assert(sv.take(i as int) + seq![sv[i as int]] =~= sv.take(i + 1));
            assert(seq![sv[i as int]].drop_last() =~= Seq::<SegmentView>::empty());
            assert(all_blocks(Seq::<SegmentView>::empty()) =~= Seq::<BlockView>::empty());
            assert(all_blocks(seq![sv[i as int]]) =~= sv[i as int].blocks);
            lemma_blocks_rows_concat(all_blocks(sv.take(i as int)), sv[i as int].blocks);
            assert(seg_rows(sv.take(i + 1)) == prefix + cur);
            lemma_seg_rows_prefix_le(sv, i + 1);
            assert(prefix.len() + cur.len() <= seg_rows(sv).len());
            assert(byte_size_of((prefix.len() + cur.len()) as nat, ncols as nat)
                <= byte_size_of(seg_rows(sv).len(), ncols as nat)) by (nonlinear_arith)
                requires
                    prefix.len() + cur.len() <= seg_rows(sv).len(),
            ;
            lemma_stats_concat(prefix, cur, ncols as nat);
            assert forall|c: int| 0 <= c < ncols implies crate::stats::col_nulls(prefix, c)
                + crate::stats::col_nulls(cur, c) <= u64::MAX by {
                crate::block::lemma_col_nulls_le(prefix, c);
                crate::block::lemma_col_nulls_le(cur, c);
            }
        }
        s = combine_stats(&s, &segs[i].summary);
        i = i + 1;
    }
    proof {
        assert(sv.take(sv.len() as int) =~= sv);
    }
    s
}

/// The rows of a prefix of segments never outnumber the rows of the
/// whole list.
pub proof fn lemma_seg_rows_prefix_le(segs: Seq<SegmentView>, i: int)
    requires
        0 <= i <= segs.len(),
    ensures
        seg_rows(segs.take(i)).len() <= seg_rows(segs).len(),
    decreases segs.len() - i,
{
    if i < segs.len() {
        assert(segs.take(i + 1).drop_last() =~= segs.take(i));
        assert(segs.take(i + 1).last() == segs[i]);
        lemma_all_blocks_concat(segs.take(i), seq![segs[i]]);
        assert(segs.take(i) + seq![segs[i]] =~= segs.take(i + 1));
        assert(seq![segs[i]].drop_last() =~= Seq::<SegmentView>::empty());
        assert(all_blocks(Seq::<SegmentView>::empty()) =~= Seq::<BlockView>::empty());
        assert(all_blocks(seq![segs[i]]) =~= segs[i].blocks);
        lemma_blocks_rows_concat(all_blocks(segs.take(i)), segs[i].blocks);
        lemma_seg_rows_prefix_le(segs, i + 1);
    } else {
        assert(segs.take(i) =~= segs);
    }
}

/// Creates the snapshot of an empty table.
pub fn new_table(ncols: usize) -> (r: TableSnapshot)
    ensures
        r@.wf(ncols as nat),
        r@.rows().len() == 0,
        r@.segments.len() == 0,
        r@.id == 0,
        r@.timestamp == 0,
        r@.prev is None,
{
    let no_blocks: Vec<Block> = Vec::new();
    proof {
        assert(no_blocks@.map_values(|b: Block| b@) =~= Seq::<BlockView>::empty());
        assert(blocks_rows(Seq::<BlockView>::empty()) =~= Seq::<Seq<Datum>>::empty());
        assert(byte_size_of(0, ncols as nat) == 0) by (nonlinear_arith);
    }
    let summary = crate::block::merge_stats(&no_blocks, ncols);
    let r = TableSnapshot { id: 0, timestamp: 0, prev: None, segments: Vec::new(), summary };
    proof {
        assert(r@.segments =~= Seq::<SegmentView>::empty());
        assert(blocks_rows(Seq::<BlockView>::empty()) =~= Seq::<Seq<Datum>>::empty());
        assert(seg_rows(r@.segments) =~= Seq::<Seq<Datum>>::empty());
    }
    r
}

/// The current-snapshot pointer: the single piece of mutable state, held
/// by the metadata service.  This model states the service's contract:
/// the pointer advances only through a successful compare-and-swap.
#[derive(Debug)]
pub struct TablePointer {
    pub current: TableSnapshot,
}

impl TablePointer {
    /// Creates a pointer at an initial snapshot.
    pub fn create(initial: TableSnapshot) -> (r: Self)
        ensures
            r.current@ == initial@,
    {
        TablePointer { current: initial }
    }

    /// Reads the current snapshot.
    pub fn read_current(&self) -> (r: &TableSnapshot)
        ensures
            r@ == self.current@,
    {
        &self.current
    }

    /// Atomically replaces the current snapshot with `candidate` if and
    /// only if the current snapshot's id is `expected`; otherwise leaves
    /// the pointer untouched.  Never exposes an intermediate state.
    pub fn compare_and_swap(&mut self, expected: u64, candidate: TableSnapshot) -> (r: bool)
        ensures
            r == (old(self).current@.id == expected),
            r ==> final(self).current@ == candidate@,
            !r ==> final(self).current@ == old(self).current@,
    {
        if self.current.id == expected {
            self.current = candidate;
            true
        } else {
            false
        }
    }
}


/// Block lists holding, block for block, the same rows hold the same
/// rows overall.
pub proof fn lemma_blocks_rows_congruent(a: Seq<BlockView>, b: Seq<BlockView>)
    requires
        a.len() == b.len(),
        forall|j: int| 0 <= j < a.len() ==> (#[trigger] a[j]).rows == b[j].rows,
    ensures
        blocks_rows(a) == blocks_rows(b),
    decreases a.len(),
{
    if a.len() > 0 {
        assert(forall|j: int| 0 <= j < a.len() - 1 ==> a.drop_last()[j] == #[trigger] a[j]);
        assert(forall|j: int| 0 <= j < b.len() - 1 ==> b.drop_last()[j] == #[trigger] b[j]);
        lemma_blocks_rows_congruent(a.drop_last(), b.drop_last());
        assert(a[a.len() - 1].rows == b[b.len() - 1].rows);
    }
}

/// Statistics are a function of content alone: two well-formed
/// snapshots whose segments hold, block for block, the same rows carry
/// identical block statistics, segment summaries, and table summary,
/// whatever the blocks' identities are.
pub proof fn lemma_stats_follow_content(a: SnapshotView, b: SnapshotView, ncols: nat)
    requires
        a.wf(ncols),
        b.wf(ncols),
        a.segments.len() == b.segments.len(),
        forall|s: int|
            0 <= s < a.segments.len() ==> (#[trigger] a.segments[s]).blocks.len()
                == b.segments[s].blocks.len(),
        forall|s: int, j: int|
            0 <= s < a.segments.len() && 0 <= j < a.segments[s].blocks.len() ==> (
            #[trigger] a.segments[s].blocks[j]).rows == b.segments[s].blocks[j].rows,
    ensures
        forall|s: int, j: int|
            0 <= s < a.segments.len() && 0 <= j < a.segments[s].blocks.len() ==> (
            #[trigger] a.segments[s].blocks[j]).stats == b.segments[s].blocks[j].stats,
        forall|s: int|
            0 <= s < a.segments.len() ==> (#[trigger] a.segments[s]).summary
                == b.segments[s].summary,
        a.summary == b.summary,
{
    assert forall|s: int, j: int|
        0 <= s < a.segments.len() && 0 <= j < a.segments[s].blocks.len() implies (
    #[trigger] a.segments[s].blocks[j]).stats == b.segments[s].blocks[j].stats by {
        assert(a.segments[s].wf(ncols) && b.segments[s].wf(ncols));
        assert(a.segments[s].blocks[j].wf(ncols) && b.segments[s].blocks[j].wf(ncols));
    }
    assert forall|s: int|
        0 <= s < a.segments.len() implies (#[trigger] a.segments[s]).summary
        == b.segments[s].summary by {
        lemma_blocks_rows_congruent(a.segments[s].blocks, b.segments[s].blocks);
        assert(a.segments[s].wf(ncols) && b.segments[s].wf(ncols));
    }
    lemma_seg_rows_congruent(a.segments, b.segments);
}

/// Segment lists holding, block for block, the same rows hold the same
/// rows overall.
pub proof fn lemma_seg_rows_congruent(a: Seq<SegmentView>, b: Seq<SegmentView>)
    requires
        a.len() == b.len(),
        forall|s: int|
            0 <= s < a.len() ==> (#[trigger] a[s]).blocks.len() == b[s].blocks.len(),
        forall|s: int, j: int|
            0 <= s < a.len() && 0 <= j < a[s].blocks.len() ==> (#[trigger] a[s].blocks[j]).rows
                == b[s].blocks[j].rows,
    ensures
        seg_rows(a) == seg_rows(b),
    decreases a.len(),
{
    if a.len() == 0 {
    } else {
        assert(forall|s: int| 0 <= s < a.len() - 1 ==> a.drop_last()[s] == #[trigger] a[s]);
        assert(forall|s: int| 0 <= s < b.len() - 1 ==> b.drop_last()[s] == #[trigger] b[s]);
        lemma_seg_rows_congruent(a.drop_last(), b.drop_last());
        lemma_all_blocks_concat(a.drop_last(), seq![a.last()]);
        lemma_all_blocks_concat(b.drop_last(), seq![b.last()]);
        assert(a.drop_last() + seq![a.last()] =~= a);
        assert(b.drop_last() + seq![b.last()] =~= b);
        assert(all_blocks(seq![a.last()]) =~= a.last().blocks) by {
            assert(seq![a.last()].drop_last() =~= Seq::<SegmentView>::empty());
            assert(all_blocks(Seq::<SegmentView>::empty()) =~= Seq::<BlockView>::empty());
        }
        assert(all_blocks(seq![b.last()]) =~= b.last().blocks) by {
            assert(seq![b.last()].drop_last() =~= Seq::<SegmentView>::empty());
            assert(all_blocks(Seq::<SegmentView>::empty()) =~= Seq::<BlockView>::empty());
        }
        lemma_blocks_rows_concat(all_blocks(a.drop_last()), a.last().blocks);
        lemma_blocks_rows_concat(all_blocks(b.drop_last()), b.last().blocks);
        assert(a[a.len() - 1] == a.last() && b[b.len() - 1] == b.last());
        lemma_blocks_rows_congruent(a.last().blocks, b.last().blocks);
    }
}

} // verus!
