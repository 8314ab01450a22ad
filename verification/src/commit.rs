//! The commit sink: from mutation log to atomically visible snapshot.
//!
//! A commit attempt finalizes the log into a delta — one block-level
//! operation per touched block id, plus the appended blocks — builds a
//! candidate snapshot from it, persists the new objects, and advances the
//! table pointer by compare-and-swap guarded by the base snapshot's id.
//! A failed swap means a concurrent commit advanced the table: if it
//! touched a disjoint block set the delta is rebased onto the new current
//! snapshot and building restarts, within a bounded retry budget;
//! otherwise the mutation aborts with nothing made visible.

use vstd::prelude::*;
use crate::datum::Datum;
use crate::errors::MutationError;
use crate::block::{Block, BlockId, BlockView, Segment, SegmentView, blocks_rows};
use crate::stats::{byte_size_of, spec_stats};
use crate::aggregator::{
    BlockMutation, BlockMutationView, apply_block_mutation, surviving_rows,
};
use crate::accumulator::MutationLog;
use crate::snapshot::{
    SnapshotView, TableSnapshot, all_blocks, find_block, find_block_spec, lemma_find_block_char,
    seg_rows,
};

verus! {

/// The operation a touched block receives: a rewrite under a fresh
/// identity, or removal when no row survived.
#[derive(Debug)]
pub enum BlockOp {
    Replace(Block),
    Remove,
}

/// Mathematical image of a [`BlockOp`].
pub enum BlockOpView {
    Replace(BlockView),
    Remove,
}

impl View for BlockOp {
    type V = BlockOpView;

    open spec fn view(&self) -> BlockOpView {
        match self {
            BlockOp::Replace(b) => BlockOpView::Replace(b@),
            BlockOp::Remove => BlockOpView::Remove,
        }
    }
}

/// One touched block of a delta.
#[derive(Debug)]
pub struct TouchedEntry {
    pub id: BlockId,
    pub op: BlockOp,
}

/// Mathematical image of a [`TouchedEntry`].
pub struct TouchedEntryView {
    pub id: BlockId,
    pub op: BlockOpView,
}

impl View for TouchedEntry {
    type V = TouchedEntryView;

    open spec fn view(&self) -> TouchedEntryView {
        TouchedEntryView { id: self.id, op: self.op@ }
    }
}

/// The table-scoped outcome of one mutation against one base snapshot:
/// the operation for each touched block id — each id at most once — and
/// the newly appended blocks.
#[derive(Debug)]
pub struct MutationDelta {
    pub touched: Vec<TouchedEntry>,
    pub appends: Vec<Block>,
    pub writer: u64,
}

impl MutationDelta {
    /// The touched entries, as views.
    pub open spec fn tv(self) -> Seq<TouchedEntryView> {
        self.touched@.map_values(|t: TouchedEntry| t@)
    }

    /// The appended blocks, as views.
    pub open spec fn av(self) -> Seq<BlockView> {
        self.appends@.map_values(|b: Block| b@)
    }
}

/// The first operation recorded for a block id, if any.
pub open spec fn find_touched(ts: Seq<TouchedEntryView>, id: BlockId) -> Option<TouchedEntryView>
    decreases ts.len(),
{
    if ts.len() == 0 {
        None
    } else if ts.first().id == id {
        Some(ts.first())
    } else {
        find_touched(ts.drop_first(), id)
    }
}

/// Lookup at a known first occurrence.
pub proof fn lemma_find_touched_at(ts: Seq<TouchedEntryView>, id: BlockId, i: int)
    requires
        0 <= i < ts.len(),
        ts[i].id == id,
        forall|k: int| 0 <= k < i ==> (#[trigger] ts[k]).id != id,
    ensures
        find_touched(ts, id) == Some(ts[i]),
    decreases i,
{
    assert(forall|k: int|
        0 <= k < ts.drop_first().len() ==> #[trigger] ts.drop_first()[k] == ts[k + 1]);
    if i > 0 {
        lemma_find_touched_at(ts.drop_first(), id, i - 1);
    }
}

/// Lookup misses when the id occurs nowhere.
pub proof fn lemma_find_touched_none(ts: Seq<TouchedEntryView>, id: BlockId)
    requires
        forall|k: int| 0 <= k < ts.len() ==> (#[trigger] ts[k]).id != id,
    ensures
        find_touched(ts, id) is None,
    decreases ts.len(),
{
    if ts.len() > 0 {
        assert(forall|k: int|
            0 <= k < ts.drop_first().len() ==> #[trigger] ts.drop_first()[k] == ts[k + 1]);
        lemma_find_touched_none(ts.drop_first(), id);
    }
}

/// Finds the first operation recorded for `id`.
pub fn find_touched_index(ts: &Vec<TouchedEntry>, id: BlockId) -> (r: Option<usize>)
    ensures
        match r {
            Some(ix) => {
                &&& 0 <= ix < ts@.len()
                &&& ts@[ix as int]@.id == id
                &&& find_touched(ts@.map_values(|t: TouchedEntry| t@), id) == Some(ts@[ix as int]@)
            },
            None => find_touched(ts@.map_values(|t: TouchedEntry| t@), id) is None,
        },
{
    let ghost tsv = ts@.map_values(|t: TouchedEntry| t@);
    let mut i: usize = 0;
    while i < ts.len()
        invariant
            tsv == ts@.map_values(|t: TouchedEntry| t@),
            0 <= i <= tsv.len(),
            forall|k: int| 0 <= k < i ==> (#[trigger] tsv[k]).id != id,
        decreases tsv.len() - i,
    {
        if ts[i].id.writer == id.writer && ts[i].id.seq == id.seq {
            proof {
                lemma_find_touched_at(tsv, id, i as int);
            }
            return Some(i);
        }
        i = i + 1;
    }
    proof {
        lemma_find_touched_none(tsv, id);
    }
    None
}

/// How many entries are rewrites.
pub open spec fn count_replaces(ts: Seq<TouchedEntryView>) -> nat
    decreases ts.len(),
{
    if ts.len() == 0 {
        0
    } else {
        count_replaces(ts.drop_last()) + (if ts.last().op is Replace {
            1nat
        } else {
            0nat
        })
    }
}

/// What a finalized delta holds, entry by entry, for a mutation log with
/// groups `ms` against base blocks `blocks`: the operation of group `k`
/// is a removal when no row of its block survives, else a rewrite of the
/// surviving rows under the fresh identity `(writer, seq0 + number of
/// rewrites before it)`.
pub open spec fn finalize_post(
    ms: Seq<BlockMutationView>,
    blocks: Seq<BlockView>,
    writer: u64,
    seq0: int,
    ncols: nat,
    ts: Seq<TouchedEntryView>,
) -> bool {
    &&& ts.len() == ms.len()
    &&& forall|k: int| 0 <= k < ts.len() ==> (#[trigger] ts[k]).id == ms[k].block_id
    &&& forall|k: int|
        0 <= k < ts.len() ==> match find_block_spec(blocks, (#[trigger] ts[k]).id) {
            None => false,
            Some(fb) => {
                match ts[k].op {
                    BlockOpView::Remove => surviving_rows(fb.rows, ms[k]).len() == 0,
                    BlockOpView::Replace(nb) => {
                        &&& nb.rows == surviving_rows(fb.rows, ms[k])
                        &&& nb.rows.len() > 0
                        &&& nb.wf(ncols)
                        &&& nb.id == (BlockId {
                            writer,
                            seq: (seq0 + count_replaces(ts.take(k))) as u64,
                        })
                    },
                }
            },
        }
}

/// Every block of a well-formed snapshot's segment list is well formed.
pub proof fn lemma_all_blocks_wf(segs: Seq<SegmentView>, ncols: nat)
    requires
        forall|i: int| 0 <= i < segs.len() ==> (#[trigger] segs[i]).wf(ncols),
    ensures
        forall|i: int| 0 <= i < all_blocks(segs).len() ==> (#[trigger] all_blocks(segs)[i]).wf(
            ncols,
        ),
    decreases segs.len(),
{
    if segs.len() > 0 {
        assert(forall|i: int| 0 <= i < segs.len() - 1 ==> segs.drop_last()[i] == #[trigger] segs[i]);
        lemma_all_blocks_wf(segs.drop_last(), ncols);
        assert forall|i: int|
            0 <= i < all_blocks(segs).len() implies (#[trigger] all_blocks(segs)[i]).wf(
            ncols,
        ) by {
            let prefix = all_blocks(segs.drop_last());
            if i < prefix.len() {
                assert(all_blocks(segs)[i] == prefix[i]);
            } else {
                assert(all_blocks(segs)[i] == segs.last().blocks[i - prefix.len()]);
            }
        }
    }
}

/// Builds the delta of one commit attempt: one block-level operation per
/// touched block id, against `base`.
///
/// Fails with `ConflictingOperation` exactly when some group names a
/// block id the base snapshot does not hold — under correct partitioning
/// a sign of an internal inconsistency.
#[verifier::rlimit(60)]
pub fn finalize(log: &MutationLog, base: &TableSnapshot, ncols: usize) -> (r: Result<
    MutationDelta,
    MutationError,
>)
    requires
        base@.wf(ncols as nat),
        forall|k: int|
            0 <= k < log.mutations@.len() ==> (#[trigger] log.mutations@[k]@).wf(ncols as nat),
        log.next_seq + log.mutations@.len() <= u64::MAX,
    ensures
        match r {
            Ok(d) => {
                &&& d.writer == log.writer
                &&& d.av() == log.appends@.map_values(|b: Block| b@)
                &&& finalize_post(
                    log.mutations@.map_values(|m: BlockMutation| m@),
                    base@.blocks(),
                    log.writer,
                    log.next_seq as int,
                    ncols as nat,
                    d.tv(),
                )
            },
            Err(e) => {
                &&& e == MutationError::ConflictingOperation
                &&& exists|k: int|
                    0 <= k < log.mutations@.len() && find_block_spec(
                        base@.blocks(),
                        (#[trigger] log.mutations@[k]@).block_id,
                    ) is None
            },
        },
{
    let ghost ms = log.mutations@.map_values(|m: BlockMutation| m@);
    let ghost blocks = base@.blocks();
    proof {
        lemma_all_blocks_wf(base@.segments, ncols as nat);
    }
    let mut touched: Vec<TouchedEntry> = Vec::new();
    let mut next: u64 = log.next_seq;
    let mut k: usize = 0;
    while k < log.mutations.len()
        invariant
            ms == log.mutations@.map_values(|m: BlockMutation| m@),
            blocks == base@.blocks(),
            base@.wf(ncols as nat),
            forall|i: int| 0 <= i < blocks.len() ==> (#[trigger] blocks[i]).wf(ncols as nat),
            forall|t: int| 0 <= t < ms.len() ==> (#[trigger] ms[t]).wf(ncols as nat),
            log.next_seq + ms.len() <= u64::MAX,
            0 <= k <= ms.len(),
            touched@.len() == k,
            next == log.next_seq + count_replaces(touched@.map_values(|t: TouchedEntry| t@)),
            next <= log.next_seq + k,
            forall|t: int| 0 <= t < k ==> (#[trigger] touched@[t]@).id == ms[t].block_id,
            forall|t: int|
                0 <= t < k ==> match find_block_spec(blocks, (#[trigger] touched@[t]@).id) {
                    None => false,
                    Some(fb) => {
                        match touched@[t]@.op {
                            BlockOpView::Remove => surviving_rows(fb.rows, ms[t]).len() == 0,
                            BlockOpView::Replace(nb) => {
                                &&& nb.rows == surviving_rows(fb.rows, ms[t])
                                &&& nb.rows.len() > 0
                                &&& nb.wf(ncols as nat)
                                &&& nb.id == (BlockId {
                                    writer: log.writer,
                                    seq: (log.next_seq + count_replaces(
                                        touched@.map_values(|t2: TouchedEntry| t2@).take(t),
                                    )) as u64,
                                })
                            },
                        }
                    },
                },
        decreases ms.len() - k,
    {
        let ghost tsv = touched@.map_values(|t: TouchedEntry| t@);
        let id = log.mutations[k].block_id;
        match find_block(base, id) {
            None => {
                proof {
                    assert(ms[k as int].block_id == id);
                }
                return Err(MutationError::ConflictingOperation);
            },
            Some(b) => {
                proof {
                    assert(ms[k as int] == log.mutations@[k as int]@);
                    assert(ms[k as int].wf(ncols as nat));
                    lemma_find_block_char(blocks, id);
                    assert(b@.wf(ncols as nat)) by {
                        let i = choose|i: int|
                            0 <= i < blocks.len() && blocks[i] == b@ && blocks[i].id == id;
                        assert(blocks[i].wf(ncols as nat));
                    }
                    assert(b@.stats.row_count == b@.rows.len());
                    assert(b@.stats.byte_size == byte_size_of(b@.rows.len(), ncols as nat));
                }
                let entry = match apply_block_mutation(
                    &b,
                    &log.mutations[k],
                    BlockId { writer: log.writer, seq: next },
                    ncols,
                ) {
                    Some(nb) => {
                        next = next + 1;
                        TouchedEntry { id, op: BlockOp::Replace(nb) }
                    },
                    None => TouchedEntry { id, op: BlockOp::Remove },
                };
                let ghost ev = entry@;
                touched.push(entry);
                proof {
                    let tsv2 = touched@.map_values(|t: TouchedEntry| t@);
                    assert(tsv2 =~= tsv.push(ev));
                    assert(tsv2.drop_last() =~= tsv);
                    assert(tsv2.take(k as int) =~= tsv);
                    assert forall|t: int|
                        0 <= t < k implies #[trigger] tsv2.take(t) =~= tsv.take(t) by {}
                    assert(ms[k as int] == log.mutations@[k as int]@);
                }
            },
        }
        k = k + 1;
    }
    let d = MutationDelta { touched, appends: crate::commit::copy_blocks(&log.appends), writer: log.writer };
    proof {
        assert(d.tv() =~= touched@.map_values(|t: TouchedEntry| t@));
    }
    Ok(d)
}

/// A segment's blocks after a delta: untouched blocks kept, rewritten
/// blocks substituted in place, removed blocks dropped; order kept.
pub open spec fn apply_blocks(blocks: Seq<BlockView>, ts: Seq<TouchedEntryView>) -> Seq<BlockView>
    decreases blocks.len(),
{
    if blocks.len() == 0 {
        Seq::empty()
    } else {
        apply_blocks(blocks.drop_last(), ts) + match find_touched(ts, blocks.last().id) {
            None => seq![blocks.last()],
            Some(e) => match e.op {
                BlockOpView::Remove => Seq::empty(),
                BlockOpView::Replace(nb) => seq![nb],
            },
        }
    }
}

/// A segment list after a delta: each segment's blocks rewritten, empty
/// segments dropped, summaries recomputed; order kept.
pub open spec fn apply_segments(
    segs: Seq<SegmentView>,
    ts: Seq<TouchedEntryView>,
    ncols: nat,
) -> Seq<SegmentView>
    decreases segs.len(),
{
    if segs.len() == 0 {
        Seq::empty()
    } else {
        apply_segments(segs.drop_last(), ts, ncols) + ({
            let nb = apply_blocks(segs.last().blocks, ts);
            if nb.len() > 0 {
                seq![SegmentView { blocks: nb, summary: spec_stats(blocks_rows(nb), ncols) }]
            } else {
                Seq::empty()
            }
        })
    }
}

/// The segment holding a delta's appended blocks, if any.
pub open spec fn append_segment(av: Seq<BlockView>, ncols: nat) -> Seq<SegmentView> {
    if av.len() > 0 {
        seq![SegmentView { blocks: av, summary: spec_stats(blocks_rows(av), ncols) }]
    } else {
        Seq::empty()
    }
}

/// The whole candidate segment list a delta produces over a base.
pub open spec fn applied_segments(
    segs: Seq<SegmentView>,
    ts: Seq<TouchedEntryView>,
    av: Seq<BlockView>,
    ncols: nat,
) -> Seq<SegmentView> {
    apply_segments(segs, ts, ncols) + append_segment(av, ncols)
}

/// Every rewritten block of a delta is well formed and non-empty.
pub open spec fn delta_blocks_wf(ts: Seq<TouchedEntryView>, av: Seq<BlockView>, ncols: nat) -> bool {
    &&& forall|k: int|
        0 <= k < ts.len() ==> ((#[trigger] ts[k]).op matches BlockOpView::Replace(nb) ==> nb.wf(
            ncols,
        ) && nb.rows.len() > 0)
    &&& forall|k: int| 0 <= k < av.len() ==> (#[trigger] av[k]).wf(ncols) && av[k].rows.len() > 0
}

/// Blocks surviving a delta are well formed and non-empty.
pub proof fn lemma_apply_blocks_wf(
    blocks: Seq<BlockView>,
    ts: Seq<TouchedEntryView>,
    av: Seq<BlockView>,
    ncols: nat,
)
    requires
        forall|i: int|
            0 <= i < blocks.len() ==> (#[trigger] blocks[i]).wf(ncols) && blocks[i].rows.len() > 0,
        delta_blocks_wf(ts, av, ncols),
    ensures
        forall|i: int|
            0 <= i < apply_blocks(blocks, ts).len() ==> (#[trigger] apply_blocks(blocks, ts)[i]).wf(
                ncols,
            ) && apply_blocks(blocks, ts)[i].rows.len() > 0,
    decreases blocks.len(),
{
    if blocks.len() > 0 {
        assert(forall|i: int|
            0 <= i < blocks.len() - 1 ==> blocks.drop_last()[i] == #[trigger] blocks[i]);
        lemma_apply_blocks_wf(blocks.drop_last(), ts, av, ncols);
        let prefix = apply_blocks(blocks.drop_last(), ts);
        match find_touched(ts, blocks.last().id) {
            None => {},
            Some(e) => {
                lemma_find_touched_member(ts, blocks.last().id);
            },
        }
        assert forall|i: int|
            0 <= i < apply_blocks(blocks, ts).len() implies (#[trigger] apply_blocks(
            blocks,
            ts,
        )[i]).wf(ncols) && apply_blocks(blocks, ts)[i].rows.len() > 0 by {
            if i < prefix.len() {
                assert(apply_blocks(blocks, ts)[i] == prefix[i]);
            }
        }
    }
}

/// A found operation comes from some entry of the delta.
pub proof fn lemma_find_touched_member(ts: Seq<TouchedEntryView>, id: BlockId)
    ensures
        find_touched(ts, id) matches Some(e) ==> exists|i: int|
            0 <= i < ts.len() && #[trigger] ts[i] == e && ts[i].id == id,
    decreases ts.len(),
{
    if ts.len() > 0 && ts.first().id != id {
        lemma_find_touched_member(ts.drop_first(), id);
        assert(forall|i: int|
            0 <= i < ts.drop_first().len() ==> #[trigger] ts.drop_first()[i] == ts[i + 1]);
        if find_touched(ts, id) is Some {
            let e = find_touched(ts, id)->Some_0;
            let i = choose|i: int|
                0 <= i < ts.drop_first().len() && #[trigger] ts.drop_first()[i] == e
                    && ts.drop_first()[i].id == id;
            assert(ts[i + 1] == e);
        }
    }
}

/// Rewriting a prefix of the segments yields no more rows than rewriting
/// all of them.
pub proof fn lemma_applied_prefix_le(
    segs: Seq<SegmentView>,
    ts: Seq<TouchedEntryView>,
    ncols: nat,
    s: int,
)
    requires
        0 <= s <= segs.len(),
    ensures
        seg_rows(apply_segments(segs.take(s), ts, ncols)).len() <= seg_rows(
            apply_segments(segs, ts, ncols),
        ).len(),
    decreases segs.len() - s,
{
    if s < segs.len() {
        assert(segs.take(s + 1).drop_last() =~= segs.take(s));
        assert(segs.take(s + 1).last() == segs[s]);
        let prefix = apply_segments(segs.take(s), ts, ncols);
        let part = apply_segments(segs.take(s + 1), ts, ncols);
        crate::snapshot::lemma_all_blocks_concat(prefix, part.skip(prefix.len() as int));
        assert(part =~= prefix + part.skip(prefix.len() as int));
        crate::snapshot::lemma_blocks_rows_concat(
            all_blocks(prefix),
            all_blocks(part.skip(prefix.len() as int)),
        );
        lemma_applied_prefix_le(segs, ts, ncols, s + 1);
    } else {
        assert(segs.take(s) =~= segs);
    }
}

/// The rows of one segment of a list are among the rows of the list.
pub proof fn lemma_seg_member_rows_le(list: Seq<SegmentView>, s: int)
    requires
        0 <= s < list.len(),
    ensures
        blocks_rows(list[s].blocks).len() <= seg_rows(list).len(),
{
    crate::snapshot::lemma_all_blocks_split(list, s);
    crate::snapshot::lemma_blocks_rows_concat(
        all_blocks(list.take(s)) + list[s].blocks,
        all_blocks(list.skip(s + 1)),
    );
    crate::snapshot::lemma_blocks_rows_concat(all_blocks(list.take(s)), list[s].blocks);
}

/// Builds the candidate snapshot: the base's segments with the delta's
/// operations applied in place, the appended blocks as one new segment,
/// fresh id and version, and a recomputed summary.
#[verifier::rlimit(60)]
pub fn apply_delta(base: &TableSnapshot, delta: &MutationDelta, ncols: usize) -> (c: TableSnapshot)
    requires
        base@.wf(ncols as nat),
        base@.id < u64::MAX,
        base@.timestamp < u64::MAX,
        delta_blocks_wf(delta.tv(), delta.av(), ncols as nat),
        seg_rows(applied_segments(base@.segments, delta.tv(), delta.av(), ncols as nat)).len()
            <= u64::MAX,
        byte_size_of(
            seg_rows(applied_segments(base@.segments, delta.tv(), delta.av(), ncols as nat)).len(),
            ncols as nat,
        ) <= u64::MAX,
    ensures
        c@.segments == applied_segments(base@.segments, delta.tv(), delta.av(), ncols as nat),
        c@.wf(ncols as nat),
        c@.id == base@.id + 1,
        c@.timestamp == base@.timestamp + 1,
        c@.prev == Some(base@.id),
        c@.summary == spec_stats(seg_rows(c@.segments), ncols as nat),
{
    let ghost tsv = delta.tv();
    let ghost av = delta.av();
    let ghost applied = applied_segments(base@.segments, tsv, av, ncols as nat);
    let ghost segsv = base@.segments;
    proof {
        crate::snapshot::lemma_all_blocks_concat(
            apply_segments(segsv, tsv, ncols as nat),
            append_segment(av, ncols as nat),
        );
        crate::snapshot::lemma_blocks_rows_concat(
            all_blocks(apply_segments(segsv, tsv, ncols as nat)),
            all_blocks(append_segment(av, ncols as nat)),
        );
    }
    let mut segments: Vec<Segment> = Vec::new();
    proof {
        assert(segments@.map_values(|s: Segment| s@) =~= Seq::<SegmentView>::empty());
        assert(apply_segments(segsv.take(0), tsv, ncols as nat) =~= Seq::<SegmentView>::empty());
    }
    let mut s: usize = 0;
    while s < base.segments.len()
        invariant
            tsv == delta.tv(),
            av == delta.av(),
            segsv == base@.segments,
            applied == applied_segments(segsv, tsv, av, ncols as nat),
            base@.wf(ncols as nat),
            delta_blocks_wf(tsv, av, ncols as nat),
            seg_rows(applied).len() <= u64::MAX,
            byte_size_of(seg_rows(applied).len(), ncols as nat) <= u64::MAX,
            0 <= s <= segsv.len(),
            segments@.map_values(|x: Segment| x@) == apply_segments(
                segsv.take(s as int),
                tsv,
                ncols as nat,
            ),
            forall|t: int|
                0 <= t < segments@.len() ==> (#[trigger] segments@[t]@).wf(ncols as nat),
        decreases segsv.len() - s,
    {
        let ghost segv = segsv[s as int];
        let ghost target = apply_blocks(segv.blocks, tsv);
        let mut new_blocks: Vec<Block> = Vec::new();
        proof {
            assert(new_blocks@.map_values(|b: Block| b@) =~= Seq::<BlockView>::empty());
            assert(apply_blocks(segv.blocks.take(0), tsv) =~= Seq::<BlockView>::empty());
        }
        let nb_count = base.segments[s].blocks.len();
        let mut j: usize = 0;
        while j < nb_count
            invariant
                tsv == delta.tv(),
                segv == segsv[s as int],
                0 <= s < segsv.len(),
                segsv == base@.segments,
                nb_count == segv.blocks.len(),
                0 <= j <= nb_count,
                new_blocks@.map_values(|b: Block| b@) == apply_blocks(
                    segv.blocks.take(j as int),
                    tsv,
                ),
            decreases nb_count - j,
        {
            let ghost pre = new_blocks@.map_values(|b: Block| b@);
            proof {
                assert(segv.blocks.take(j + 1).drop_last() =~= segv.blocks.take(j as int));
                assert(segv.blocks.take(j + 1).last() == segv.blocks[j as int]);
                assert(segv.blocks[j as int] == base.segments@[s as int]@.blocks[j as int]);
            }
            let bid = base.segments[s].blocks[j].id;
            assert(bid == segv.blocks[j as int].id);
            match find_touched_index(&delta.touched, bid) {
                None => {
                    let b = base.segments[s].blocks[j].clone();
                    new_blocks.push(b);
                    proof {
                        assert(new_blocks@.map_values(|b: Block| b@) =~= pre.push(
                            segv.blocks[j as int],
                        ));
                        assert(apply_blocks(segv.blocks.take(j + 1), tsv) =~= pre.push(
                            segv.blocks[j as int],
                        ));
                    }
                },
                Some(ix) => {
                    match &delta.touched[ix].op {
                        BlockOp::Replace(nb) => {
                            let b = nb.clone();
                            new_blocks.push(b);
                            proof {
                                assert(new_blocks@.map_values(|b: Block| b@) =~= pre.push(
                                    delta.touched@[ix as int]@.op->Replace_0,
                                ));
                                assert(apply_blocks(segv.blocks.take(j + 1), tsv) =~= pre.push(
                                    delta.touched@[ix as int]@.op->Replace_0,
                                ));
                            }
                        },
                        BlockOp::Remove => {
                            proof {
                                assert(apply_blocks(segv.blocks.take(j + 1), tsv) =~= pre);
                            }
                        },
                    }
                },
            }
            j = j + 1;
        }
        proof {
            assert(segv.blocks.take(nb_count as int) =~= segv.blocks);
            assert(segsv.take(s + 1).drop_last() =~= segsv.take(s as int));
            assert(segsv.take(s + 1).last() == segv);
        }
        if new_blocks.len() > 0 {
            proof {
                assert(segv.wf(ncols as nat));
                lemma_apply_blocks_wf(segv.blocks, tsv, av, ncols as nat);
                // The new segment's rows are a slice of the whole
                // candidate's rows, so the summary fits.
                let part = apply_segments(segsv.take(s + 1), tsv, ncols as nat);
                let prefix = apply_segments(segsv.take(s as int), tsv, ncols as nat);
                assert(part =~= prefix.push(
                    SegmentView {
                        blocks: target,
                        summary: spec_stats(blocks_rows(target), ncols as nat),
                    },
                ));
                lemma_seg_member_rows_le(part, part.len() - 1);
                lemma_applied_prefix_le(segsv, tsv, ncols as nat, s + 1);
                crate::snapshot::lemma_all_blocks_concat(
                    apply_segments(segsv, tsv, ncols as nat),
                    append_segment(av, ncols as nat),
                );
                crate::snapshot::lemma_blocks_rows_concat(
                    all_blocks(apply_segments(segsv, tsv, ncols as nat)),
                    all_blocks(append_segment(av, ncols as nat)),
                );
                assert(blocks_rows(target).len() <= seg_rows(applied).len());
                assert forall|i: int|
                    0 <= i < new_blocks@.len() implies (#[trigger] new_blocks@[i]@).wf(
                    ncols as nat,
                ) by {
                    assert(new_blocks@.map_values(|b: Block| b@)[i] == new_blocks@[i]@);
                    assert(target[i].wf(ncols as nat));
                }
                assert(byte_size_of(blocks_rows(target).len(), ncols as nat) <= byte_size_of(
                    seg_rows(applied).len(),
                    ncols as nat,
                )) by (nonlinear_arith)
                    requires
                        blocks_rows(target).len() <= seg_rows(applied).len(),
                ;
            }
            let seg = crate::block::make_segment(new_blocks, ncols);
            segments.push(seg);
            proof {
                assert(segments@.map_values(|x: Segment| x@) =~= apply_segments(
                    segsv.take(s + 1),
                    tsv,
                    ncols as nat,
                ));
            }
        } else {
            proof {
                assert(segments@.map_values(|x: Segment| x@) =~= apply_segments(
                    segsv.take(s + 1),
                    tsv,
                    ncols as nat,
                ));
            }
        }
        s = s + 1;
    }
    proof {
        assert(segsv.take(segsv.len() as int) =~= segsv);
    }
    if delta.appends.len() > 0 {
        proof {
            let full = apply_segments(segsv, tsv, ncols as nat) + append_segment(
                av,
                ncols as nat,
            );
            lemma_seg_member_rows_le(full, full.len() - 1);
            assert(full[full.len() - 1].blocks == av);
            assert(blocks_rows(av).len() <= seg_rows(applied).len());
            assert(byte_size_of(blocks_rows(av).len(), ncols as nat) <= byte_size_of(
                seg_rows(applied).len(),
                ncols as nat,
            )) by (nonlinear_arith)
                requires
                    blocks_rows(av).len() <= seg_rows(applied).len(),
            ;
        }
        let ab = copy_blocks(&delta.appends);
        proof {
            assert forall|i: int|
                0 <= i < ab@.len() implies (#[trigger] ab@[i]@).wf(ncols as nat) by {
                assert(ab@.map_values(|b: Block| b@)[i] == ab@[i]@);
                assert(av[i].wf(ncols as nat));
            }
        }
        let seg = crate::block::make_segment(ab, ncols);
        segments.push(seg);
    }
    proof {
        assert(segments@.map_values(|x: Segment| x@) =~= applied);
    }
    let summary = crate::snapshot::merge_segment_stats(&segments, ncols);
    let c = TableSnapshot {
        id: base.id + 1,
        timestamp: base.timestamp + 1,
        prev: Some(base.id),
        segments,
        summary,
    };
    proof {
        assert(c@.segments == applied);
    }
    c
}


/// Block ids occur at most once.
pub open spec fn unique_block_ids(blocks: Seq<BlockView>) -> bool {
    forall|i: int, j: int|
        0 <= i < j < blocks.len() ==> (#[trigger] blocks[i]).id != (#[trigger] blocks[j]).id
}

/// Every group of the log names a block the snapshot holds.
pub open spec fn touched_present(ms: Seq<BlockMutationView>, blocks: Seq<BlockView>) -> bool {
    forall|k: int|
        0 <= k < ms.len() ==> find_block_spec(blocks, (#[trigger] ms[k]).block_id) is Some
}

/// Under unique ids and a finalized delta, the rewrite substituted at a
/// block's position never holds more rows than the block did.
pub proof fn lemma_delta_shrinks(
    ms: Seq<BlockMutationView>,
    blocks: Seq<BlockView>,
    writer: u64,
    seq0: int,
    ncols: nat,
    ts: Seq<TouchedEntryView>,
    j: int,
)
    requires
        finalize_post(ms, blocks, writer, seq0, ncols, ts),
        unique_block_ids(blocks),
        0 <= j < blocks.len(),
    ensures
        find_touched(ts, blocks[j].id) matches Some(e) ==> match e.op {
            BlockOpView::Remove => true,
            BlockOpView::Replace(nb) => nb.rows.len() <= blocks[j].rows.len(),
        },
{
    lemma_find_touched_member(ts, blocks[j].id);
    if find_touched(ts, blocks[j].id) is Some {
        let e = find_touched(ts, blocks[j].id)->Some_0;
        let k = choose|k: int| 0 <= k < ts.len() && #[trigger] ts[k] == e && ts[k].id == blocks[j].id;
        lemma_find_block_char(blocks, ts[k].id);
        match find_block_spec(blocks, ts[k].id) {
            None => {},
            Some(fb) => {
                let i0 = choose|i: int|
                    0 <= i < blocks.len() && #[trigger] blocks[i] == fb && blocks[i].id == ts[k].id;
                assert(i0 == j);
                crate::aggregator::lemma_surviving_le(fb.rows, ms[k]);
            },
        }
    }
}

/// Applying a shrinking delta to a block list never grows its rows.
pub proof fn lemma_apply_blocks_rows_le(blocks: Seq<BlockView>, ts: Seq<TouchedEntryView>)
    requires
        forall|j: int|
            0 <= j < blocks.len() ==> (find_touched(ts, (#[trigger] blocks[j]).id)
                matches Some(e) ==> match e.op {
                BlockOpView::Remove => true,
                BlockOpView::Replace(nb) => nb.rows.len() <= blocks[j].rows.len(),
            }),
    ensures
        blocks_rows(apply_blocks(blocks, ts)).len() <= blocks_rows(blocks).len(),
    decreases blocks.len(),
{
    if blocks.len() > 0 {
        assert(forall|j: int|
            0 <= j < blocks.len() - 1 ==> blocks.drop_last()[j] == #[trigger] blocks[j]);
        lemma_apply_blocks_rows_le(blocks.drop_last(), ts);
        let prefix = apply_blocks(blocks.drop_last(), ts);
        let tail = match find_touched(ts, blocks.last().id) {
            None => seq![blocks.last()],
            Some(e) => match e.op {
                BlockOpView::Remove => Seq::<BlockView>::empty(),
                BlockOpView::Replace(nb) => seq![nb],
            },
        };
        crate::snapshot::lemma_blocks_rows_concat(prefix, tail);
        assert(blocks[blocks.len() - 1] == blocks.last());
        if tail.len() > 0 {
            assert(blocks_rows(tail) =~= tail[0].rows) by {
                assert(tail.drop_last() =~= Seq::<BlockView>::empty());
                assert(blocks_rows(Seq::<BlockView>::empty()) =~= Seq::<Seq<Datum>>::empty());
            }
        } else {
            assert(blocks_rows(tail) =~= Seq::<Seq<Datum>>::empty());
        }
    }
}

/// Applying a shrinking delta to a segment list never grows its rows.
pub proof fn lemma_apply_segments_rows_le(
    segs: Seq<SegmentView>,
    ts: Seq<TouchedEntryView>,
    ncols: nat,
)
    requires
        forall|s: int, j: int|
            0 <= s < segs.len() && 0 <= j < segs[s].blocks.len() ==> (find_touched(
                ts,
                (#[trigger] segs[s].blocks[j]).id,
            ) matches Some(e) ==> match e.op {
                BlockOpView::Remove => true,
                BlockOpView::Replace(nb) => nb.rows.len() <= segs[s].blocks[j].rows.len(),
            }),
    ensures
        seg_rows(apply_segments(segs, ts, ncols)).len() <= seg_rows(segs).len(),
    decreases segs.len(),
{
    if segs.len() > 0 {
        assert(forall|s: int|
            0 <= s < segs.len() - 1 ==> segs.drop_last()[s] == #[trigger] segs[s]);
        assert forall|s: int, j: int|
            0 <= s < segs.drop_last().len() && 0 <= j
                < segs.drop_last()[s].blocks.len() implies (find_touched(
            ts,
            (#[trigger] segs.drop_last()[s].blocks[j]).id,
        ) matches Some(e) ==> match e.op {
            BlockOpView::Remove => true,
            BlockOpView::Replace(nb) => nb.rows.len()
                <= segs.drop_last()[s].blocks[j].rows.len(),
        }) by {
            assert(segs.drop_last()[s] == segs[s]);
            assert(segs[s].blocks[j] == segs.drop_last()[s].blocks[j]);
        }
        lemma_apply_segments_rows_le(segs.drop_last(), ts, ncols);
        let prefix = apply_segments(segs.drop_last(), ts, ncols);
        let nb = apply_blocks(segs.last().blocks, ts);
        let tail = if nb.len() > 0 {
            seq![SegmentView { blocks: nb, summary: spec_stats(blocks_rows(nb), ncols) }]
        } else {
            Seq::<SegmentView>::empty()
        };
        crate::snapshot::lemma_all_blocks_concat(prefix, tail);
        crate::snapshot::lemma_blocks_rows_concat(all_blocks(prefix), all_blocks(tail));
        crate::snapshot::lemma_all_blocks_concat(segs.drop_last(), seq![segs.last()]);
        assert(segs =~= segs.drop_last() + seq![segs.last()]);
        crate::snapshot::lemma_blocks_rows_concat(
            all_blocks(segs.drop_last()),
            all_blocks(seq![segs.last()]),
        );
        assert(all_blocks(seq![segs.last()]) =~= segs.last().blocks) by {
            assert(seq![segs.last()].drop_last() =~= Seq::<SegmentView>::empty());
        }
        if tail.len() > 0 {
            assert(all_blocks(tail) =~= nb) by {
                assert(tail.drop_last() =~= Seq::<SegmentView>::empty());
                assert(all_blocks(Seq::<SegmentView>::empty()) =~= Seq::<BlockView>::empty());
            }
        } else {
            assert(all_blocks(tail) =~= Seq::<BlockView>::empty());
        }
        assert(segs.last() == segs[segs.len() - 1]);
        assert forall|j: int|
            0 <= j < segs.last().blocks.len() implies (find_touched(
            ts,
            (#[trigger] segs.last().blocks[j]).id,
        ) matches Some(e) ==> match e.op {
            BlockOpView::Remove => true,
            BlockOpView::Replace(nb2) => nb2.rows.len() <= segs.last().blocks[j].rows.len(),
        }) by {
            assert(segs[segs.len() - 1].blocks[j] == segs.last().blocks[j]);
        }
        lemma_apply_blocks_rows_le(segs.last().blocks, ts);
    }
}

/// A finalized delta applied to its base yields at most the base's rows
/// plus the appended rows.
pub proof fn lemma_applied_rows_bound(
    ms: Seq<BlockMutationView>,
    base: SnapshotView,
    writer: u64,
    seq0: int,
    ncols: nat,
    ts: Seq<TouchedEntryView>,
    av: Seq<BlockView>,
)
    requires
        finalize_post(ms, base.blocks(), writer, seq0, ncols, ts),
        unique_block_ids(base.blocks()),
    ensures
        seg_rows(applied_segments(base.segments, ts, av, ncols)).len() <= seg_rows(base.segments).len()
            + blocks_rows(av).len(),
{
    assert forall|s: int, j: int|
        0 <= s < base.segments.len() && 0 <= j < base.segments[s].blocks.len() implies (
    find_touched(ts, (#[trigger] base.segments[s].blocks[j]).id) matches Some(e) ==> match e.op {
        BlockOpView::Remove => true,
        BlockOpView::Replace(nb) => nb.rows.len() <= base.segments[s].blocks[j].rows.len(),
    }) by {
        crate::snapshot::lemma_all_blocks_split(base.segments, s);
        let flat = base.blocks();
        let fi = all_blocks(base.segments.take(s)).len() + j;
        assert(flat[fi] == base.segments[s].blocks[j]);
        lemma_delta_shrinks(ms, flat, writer, seq0, ncols, ts, fi);
    }
    lemma_apply_segments_rows_le(base.segments, ts, ncols);
    crate::snapshot::lemma_all_blocks_concat(
        apply_segments(base.segments, ts, ncols),
        append_segment(av, ncols),
    );
    crate::snapshot::lemma_blocks_rows_concat(
        all_blocks(apply_segments(base.segments, ts, ncols)),
        all_blocks(append_segment(av, ncols)),
    );
    if av.len() > 0 {
        assert(all_blocks(append_segment(av, ncols)) =~= av) by {
            assert(append_segment(av, ncols).drop_last() =~= Seq::<SegmentView>::empty());
            assert(all_blocks(Seq::<SegmentView>::empty()) =~= Seq::<BlockView>::empty());
        }
    } else {
        assert(all_blocks(append_segment(av, ncols)) =~= Seq::<BlockView>::empty());
        assert(blocks_rows(Seq::<BlockView>::empty()) =~= Seq::<Seq<Datum>>::empty());
    }
}

/// Rebasing is serializable: finalizing one log against two bases that
/// agree on every touched block id produces the very same delta, so a
/// conflict retry whose concurrent commit touched a disjoint block set
/// commits exactly what a single execution against the latest base would
/// have committed.
pub proof fn lemma_rebase_serializable(
    ms: Seq<BlockMutationView>,
    b1: Seq<BlockView>,
    b2: Seq<BlockView>,
    writer: u64,
    seq0: int,
    ncols: nat,
    ts1: Seq<TouchedEntryView>,
    ts2: Seq<TouchedEntryView>,
)
    requires
        finalize_post(ms, b1, writer, seq0, ncols, ts1),
        finalize_post(ms, b2, writer, seq0, ncols, ts2),
        forall|k: int|
            0 <= k < ms.len() ==> find_block_spec(b2, (#[trigger] ms[k]).block_id)
                == find_block_spec(b1, ms[k].block_id),
    ensures
        ts1 == ts2,
{
    assert forall|k: int| 0 <= k <= ms.len() implies #[trigger] ts1.take(k) =~= ts2.take(k) by {
        lemma_rebase_prefix(ms, b1, b2, writer, seq0, ncols, ts1, ts2, k);
    }
    assert(ts1.take(ms.len() as int) =~= ts1);
    assert(ts2.take(ms.len() as int) =~= ts2);
    assert(ts1.take(ms.len() as int) =~= ts2.take(ms.len() as int));
}

proof fn lemma_rebase_prefix(
    ms: Seq<BlockMutationView>,
    b1: Seq<BlockView>,
    b2: Seq<BlockView>,
    writer: u64,
    seq0: int,
    ncols: nat,
    ts1: Seq<TouchedEntryView>,
    ts2: Seq<TouchedEntryView>,
    k: int,
)
    requires
        finalize_post(ms, b1, writer, seq0, ncols, ts1),
        finalize_post(ms, b2, writer, seq0, ncols, ts2),
        forall|t: int|
            0 <= t < ms.len() ==> find_block_spec(b2, (#[trigger] ms[t]).block_id)
                == find_block_spec(b1, ms[t].block_id),
        0 <= k <= ms.len(),
    ensures
        ts1.take(k) =~= ts2.take(k),
    decreases k,
{
    if k > 0 {
        lemma_rebase_prefix(ms, b1, b2, writer, seq0, ncols, ts1, ts2, k - 1);
        let e1 = ts1[k - 1];
        let e2 = ts2[k - 1];
        assert(e1.id == ms[k - 1].block_id && e2.id == ms[k - 1].block_id);
        let fb = find_block_spec(b1, ms[k - 1].block_id)->Some_0;
        assert(find_block_spec(b2, ms[k - 1].block_id) == Some(fb));
        assert(ts1.take(k - 1) =~= ts2.take(k - 1));
        match e1.op {
            BlockOpView::Remove => {
                assert(e2.op is Remove);
                assert(e1 =~= e2);
            },
            BlockOpView::Replace(nb1) => {
                match e2.op {
                    BlockOpView::Remove => {
                        assert(false);
                    },
                    BlockOpView::Replace(nb2) => {
                        assert(nb1.rows == nb2.rows);
                        assert(nb1.id == nb2.id);
                        assert(nb1.stats == spec_stats(nb1.rows, ncols));
                        assert(nb2.stats == spec_stats(nb2.rows, ncols));
                        assert(e1 =~= e2);
                    },
                }
            },
        }
        assert(ts1.take(k) =~= ts1.take(k - 1).push(e1));
        assert(ts2.take(k) =~= ts2.take(k - 1).push(e2));
    }
}

/// The states of one commit attempt.
#[derive(Clone, Copy, Debug, PartialEq, Eq, Structural)]
pub enum CommitState {
    /// Combining the base snapshot with the log into a candidate.
    Building,
    /// Persisting the candidate's new objects to storage.
    Writing,
    /// Swapping the table pointer, guarded by the base snapshot's id.
    CasAttempt,
    /// The candidate is the table's visible state.  Terminal.
    Committed,
    /// The pointer advanced concurrently; deciding whether to rebase.
    ConflictRetry,
    /// The mutation failed; nothing became visible.  Terminal.
    Aborted,
    /// An overlapping concurrent commit superseded this idempotent
    /// attempt, which was dropped silently; nothing became visible.
    /// Terminal.
    Superseded,
}

/// One commit attempt: drives a mutation log through building, writing,
/// and the guarded pointer swap, rebasing onto fresh snapshots on
/// conflict within a bounded retry budget.
///
/// The sink never touches the table pointer itself: the caller performs
/// the physical writes and the compare-and-swap and reports the outcome.
/// No state before `Committed` publishes anything, so a reader observes
/// the base snapshot until the swap succeeds, and only ever the whole
/// candidate after it.
#[derive(Debug)]
pub struct CommitSink {
    /// The retry state: re-derives the delta against any base.
    pub log: MutationLog,
    /// The snapshot this attempt builds against.
    pub base: TableSnapshot,
    /// The candidate snapshot, from `Writing` on.
    pub candidate: Option<TableSnapshot>,
    /// The finalized delta, from `Writing` on.
    pub delta: Option<MutationDelta>,
    /// The concurrent snapshot that defeated the swap, in `ConflictRetry`.
    pub conflict: Option<TableSnapshot>,
    /// Rebases still allowed.
    pub retries_left: u64,
    /// The mutation is idempotent (a compaction): an overlapping
    /// concurrent commit supersedes it instead of aborting it.
    pub idempotent: bool,
    /// The table's width.
    pub ncols: usize,
    pub state: CommitState,
    /// Why the attempt aborted, in `Aborted`.
    pub failure: Option<MutationError>,
}

impl CommitSink {
    /// The log's groups, as views.
    pub open spec fn ms(self) -> Seq<BlockMutationView> {
        self.log.mutations@.map_values(|m: BlockMutation| m@)
    }

    /// The log's appended blocks, as views.
    pub open spec fn log_av(self) -> Seq<BlockView> {
        self.log.appends@.map_values(|b: Block| b@)
    }

    /// What `build` needs of the base and the log.
    pub open spec fn buildable(self) -> bool {
        &&& self.base@.wf(self.ncols as nat)
        &&& unique_block_ids(self.base@.blocks())
        &&& self.base@.id < u64::MAX
        &&& self.base@.timestamp < u64::MAX
        &&& forall|k: int| 0 <= k < self.ms().len() ==> (#[trigger] self.ms()[k]).wf(
            self.ncols as nat,
        )
        &&& self.log.next_seq + self.ms().len() <= u64::MAX
        &&& forall|k: int|
            0 <= k < self.log_av().len() ==> (#[trigger] self.log_av()[k]).wf(self.ncols as nat)
                && self.log_av()[k].rows.len() > 0
        &&& seg_rows(self.base@.segments).len() + blocks_rows(self.log_av()).len() <= u64::MAX
        &&& byte_size_of(
            (seg_rows(self.base@.segments).len() + blocks_rows(self.log_av()).len()) as nat,
            self.ncols as nat,
        ) <= u64::MAX
    }

    /// Starts a commit attempt against `base` with `max_retries` rebases
    /// allowed.
    pub fn create(base: TableSnapshot, log: MutationLog, max_retries: u64, ncols: usize) -> (r:
        Self)
        ensures
            r.base@ == base@,
            r.log == log,
            r.retries_left == max_retries,
            r.ncols == ncols,
            r.state is Building,
            r.candidate is None && r.delta is None && r.conflict is None && r.failure is None,
            !r.idempotent,
    {
        CommitSink {
            log,
            base,
            candidate: None,
            delta: None,
            conflict: None,
            retries_left: max_retries,
            idempotent: false,
            ncols,
            state: CommitState::Building,
            failure: None,
        }
    }

    /// Marks the mutation as idempotent, as a compaction is: work an
    /// overlapping concurrent commit has superseded is then dropped
    /// silently rather than reported as a conflict.
    pub fn set_idempotent(&mut self)
        ensures
            *final(self) == (CommitSink { idempotent: true, ..*old(self) }),
    {
        self.idempotent = true;
    }

    /// Building: finalizes the log against the base and builds the
    /// candidate snapshot, moving to `Writing`; a group naming a block
    /// the base does not hold aborts the attempt.
    pub fn build(&mut self)
        requires
            old(self).state is Building,
            old(self).buildable(),
        ensures
            final(self).log == old(self).log,
            final(self).base@ == old(self).base@,
            final(self).retries_left == old(self).retries_left,
            final(self).idempotent == old(self).idempotent,
            final(self).ncols == old(self).ncols,
            final(self).conflict is None == (old(self).conflict is None),
            match final(self).state {
                CommitState::Writing => {
                    &&& final(self).delta matches Some(d) && {
                        &&& d.writer == old(self).log.writer
                        &&& d.av() == old(self).log_av()
                        &&& finalize_post(
                            old(self).ms(),
                            old(self).base@.blocks(),
                            old(self).log.writer,
                            old(self).log.next_seq as int,
                            old(self).ncols as nat,
                            d.tv(),
                        )
                        &&& final(self).candidate matches Some(c) && {
                            &&& c@.segments == applied_segments(
                                old(self).base@.segments,
                                d.tv(),
                                d.av(),
                                old(self).ncols as nat,
                            )
                            &&& c@.wf(old(self).ncols as nat)
                            &&& c@.id == old(self).base@.id + 1
                            &&& c@.timestamp == old(self).base@.timestamp + 1
                            &&& c@.prev == Some(old(self).base@.id)
                        }
                    }
                },
                CommitState::Aborted => {
                    &&& final(self).failure == Some(MutationError::ConflictingOperation)
                    &&& !touched_present(old(self).ms(), old(self).base@.blocks())
                },
                _ => false,
            },
    {
        let ghost ms = self.ms();
        let ghost basev = self.base@;
        proof {
            assert forall|k: int|
                0 <= k < self.log.mutations@.len() implies (#[trigger] self.log.mutations@[k]@).wf(
                self.ncols as nat,
            ) by {
                assert(ms[k] == self.log.mutations@[k]@);
            }
        }
        match finalize(&self.log, &self.base, self.ncols) {
            Err(e) => {
                self.state = CommitState::Aborted;
                self.failure = Some(MutationError::ConflictingOperation);
                proof {
                    let k = choose|k: int|
                        0 <= k < self.log.mutations@.len() && find_block_spec(
                            basev.blocks(),
                            (#[trigger] self.log.mutations@[k]@).block_id,
                        ) is None;
                    assert(ms[k] == self.log.mutations@[k]@);
                    assert(!touched_present(ms, basev.blocks()));
                }
            },
            Ok(d) => {
                proof {
                    lemma_applied_rows_bound(
                        ms,
                        basev,
                        self.log.writer,
                        self.log.next_seq as int,
                        self.ncols as nat,
                        d.tv(),
                        d.av(),
                    );
                    assert(byte_size_of(
                        seg_rows(
                            applied_segments(
                                basev.segments,
                                d.tv(),
                                d.av(),
                                self.ncols as nat,
                            ),
                        ).len(),
                        self.ncols as nat,
                    ) <= byte_size_of(
                        (seg_rows(basev.segments).len() + blocks_rows(self.log_av()).len()) as nat,
                        self.ncols as nat,
                    )) by (nonlinear_arith)
                        requires
                            seg_rows(
                                applied_segments(
                                    basev.segments,
                                    d.tv(),
                                    d.av(),
                                    self.ncols as nat,
                                ),
                            ).len() <= seg_rows(basev.segments).len() + blocks_rows(
                                self.log_av(),
                            ).len(),
                    ;
                    assert forall|k: int|
                        0 <= k < d.tv().len() implies ((#[trigger] d.tv()[k]).op
                        matches BlockOpView::Replace(nb) ==> nb.wf(self.ncols as nat)
                        && nb.rows.len() > 0) by {
                        assert((d.tv()[k]).id == ms[k].block_id);
                    }
                    assert forall|k: int|
                        0 <= k < d.av().len() implies (#[trigger] d.av()[k]).wf(
                        self.ncols as nat,
                    ) && d.av()[k].rows.len() > 0 by {
                        assert(d.av()[k] == self.log_av()[k]);
                    }
                }
                let c = apply_delta(&self.base, &d, self.ncols);
                self.candidate = Some(c);
                self.delta = Some(d);
                self.state = CommitState::Writing;
            },
        }
    }

    /// Writing: the caller has persisted (or failed to persist) the
    /// candidate's new blocks and segments; a write failure aborts the
    /// attempt with nothing visible.
    pub fn write_done(&mut self, success: bool)
        requires
            old(self).state is Writing,
        ensures
            final(self).log == old(self).log,
            final(self).base@ == old(self).base@,
            final(self).candidate == old(self).candidate,
            final(self).delta == old(self).delta,
            final(self).retries_left == old(self).retries_left,
            final(self).idempotent == old(self).idempotent,
            final(self).ncols == old(self).ncols,
            success ==> final(self).state is CasAttempt
                && (final(self).failure is None == (old(self).failure is None)),
            !success ==> final(self).state is Aborted && final(self).failure == Some(
                MutationError::Io,
            ),
    {
        if success {
            self.state = CommitState::CasAttempt;
        } else {
            self.state = CommitState::Aborted;
            self.failure = Some(MutationError::Io);
        }
    }

    /// The id the pointer swap must be guarded by: the base snapshot's.
    pub fn expected_id(&self) -> (r: u64)
        ensures
            r == self.base@.id,
    {
        self.base.id
    }

    /// CasAttempt: the caller reports the swap's outcome; success
    /// commits, failure carries the snapshot that advanced the table.
    pub fn cas_result(&mut self, success: bool, current: Option<TableSnapshot>)
        requires
            old(self).state is CasAttempt,
            !success ==> current is Some,
        ensures
            final(self).log == old(self).log,
            final(self).base@ == old(self).base@,
            final(self).candidate == old(self).candidate,
            final(self).delta == old(self).delta,
            final(self).retries_left == old(self).retries_left,
            final(self).idempotent == old(self).idempotent,
            final(self).ncols == old(self).ncols,
            success ==> final(self).state is Committed
                && (final(self).conflict is None == (old(self).conflict is None)),
            !success ==> final(self).state is ConflictRetry && final(self).conflict == current,
    {
        if success {
            self.state = CommitState::Committed;
        } else {
            self.state = CommitState::ConflictRetry;
            self.conflict = current;
        }
    }

    /// ConflictRetry: rebase or abort.
    ///
    /// When the retry budget is spent the attempt aborts with
    /// `MaxRetriesExceeded`.  Otherwise, if every touched block id is
    /// still present in the concurrent snapshot — the two commits
    /// touched disjoint block sets — the attempt re-enters `Building`
    /// against it; if some touched block is gone, the conflict is
    /// semantic and the attempt aborts with nothing visible.
    pub fn resolve_conflict(&mut self)
        requires
            old(self).state is ConflictRetry,
            old(self).conflict is Some,
        ensures
            final(self).log == old(self).log,
            final(self).ncols == old(self).ncols,
            ({
                let cur = old(self).conflict->Some_0;
                if old(self).retries_left == 0 {
                    &&& final(self).state is Aborted
                    &&& final(self).failure == Some(MutationError::MaxRetriesExceeded)
                } else if touched_present(old(self).ms(), cur@.blocks()) {
                    &&& final(self).state is Building
                    &&& final(self).base@ == cur@
                    &&& final(self).retries_left == old(self).retries_left - 1
                    &&& final(self).candidate is None
                    &&& final(self).delta is None
                    &&& final(self).conflict is None
                } else if old(self).idempotent {
                    &&& final(self).state is Superseded
                    &&& final(self).failure is None == (old(self).failure is None)
                } else {
                    &&& final(self).state is Aborted
                    &&& final(self).failure == Some(MutationError::Aborted)
                }
            }),
    {
        let ghost ms = self.ms();
        if self.retries_left == 0 {
            self.state = CommitState::Aborted;
            self.failure = Some(MutationError::MaxRetriesExceeded);
            return;
        }
        let cur = self.conflict.take().unwrap();
        let ghost curv = cur@;
        let mut k: usize = 0;
        while k < self.log.mutations.len()
            invariant
                ms == self.log.mutations@.map_values(|m: BlockMutation| m@),
                ms == old(self).ms(),
                self.log == old(self).log,
                self.ncols == old(self).ncols,
                self.retries_left == old(self).retries_left,
                self.idempotent == old(self).idempotent,
                self.failure is None == (old(self).failure is None),
                old(self).retries_left > 0,
                self.conflict is None,
                curv == cur@,
                curv == old(self).conflict->Some_0@,
                0 <= k <= ms.len(),
                forall|t: int|
                    0 <= t < k ==> find_block_spec(curv.blocks(), (#[trigger] ms[t]).block_id)
                        is Some,
            decreases ms.len() - k,
        {
            match find_block(&cur, self.log.mutations[k].block_id) {
                Some(_) => {
                    proof {
                        assert(ms[k as int] == self.log.mutations@[k as int]@);
                    }
                },
                None => {
                    proof {
                        assert(ms[k as int] == self.log.mutations@[k as int]@);
                        assert(!touched_present(ms, curv.blocks()));
                    }
                    if self.idempotent {
                        // The work is superseded; drop it silently.
                        self.state = CommitState::Superseded;
                    } else {
                        self.state = CommitState::Aborted;
                        self.failure = Some(MutationError::Aborted);
                    }
                    return;
                },
            }
            k = k + 1;
        }
        proof {
            assert(touched_present(ms, curv.blocks()));
        }
        self.base = cur;
        self.candidate = None;
        self.delta = None;
        self.retries_left = self.retries_left - 1;
        self.state = CommitState::Building;
    }
}

/// Runs one whole mutation against the table pointer: read the current
/// snapshot, build the candidate, and swap.
///
/// Atomicity: on any error the pointer still holds the pre-mutation
/// snapshot — a reader before, during, and after a failed attempt
/// observes only the old rows — and on success it holds exactly the
/// fully built candidate.
pub fn execute_mutation(
    pointer: &mut crate::snapshot::TablePointer,
    log: &MutationLog,
    ncols: usize,
) -> (r: Result<TableSnapshot, MutationError>)
    requires
        old(pointer).current@.wf(ncols as nat),
        unique_block_ids(old(pointer).current@.blocks()),
        old(pointer).current@.id < u64::MAX,
        old(pointer).current@.timestamp < u64::MAX,
        forall|k: int|
            0 <= k < log.mutations@.len() ==> (#[trigger] log.mutations@[k]@).wf(ncols as nat),
        log.next_seq + log.mutations@.len() <= u64::MAX,
        forall|k: int|
            0 <= k < log.appends@.len() ==> (#[trigger] log.appends@[k]@).wf(ncols as nat)
                && log.appends@[k]@.rows.len() > 0,
        seg_rows(old(pointer).current@.segments).len() + blocks_rows(
            log.appends@.map_values(|b: Block| b@),
        ).len() <= u64::MAX,
        byte_size_of(
            (seg_rows(old(pointer).current@.segments).len() + blocks_rows(
                log.appends@.map_values(|b: Block| b@),
            ).len()) as nat,
            ncols as nat,
        ) <= u64::MAX,
    ensures
        match r {
            Ok(s) => {
                &&& final(pointer).current@ == s@
                &&& s@.wf(ncols as nat)
                &&& s@.id == old(pointer).current@.id + 1
                &&& s@.timestamp == old(pointer).current@.timestamp + 1
                &&& s@.prev == Some(old(pointer).current@.id)
                &&& ({
                    let msv = log.mutations@.map_values(|m: BlockMutation| m@);
                    let avv = log.appends@.map_values(|b: Block| b@);
                    exists|ts: Seq<TouchedEntryView>|
                        {
                            &&& #[trigger] finalize_post(
                                msv,
                                old(pointer).current@.blocks(),
                                log.writer,
                                log.next_seq as int,
                                ncols as nat,
                                ts,
                            )
                            &&& s@.segments == applied_segments(
                                old(pointer).current@.segments,
                                ts,
                                avv,
                                ncols as nat,
                            )
                        }
                })
            },
            Err(e) => {
                &&& final(pointer).current@ == old(pointer).current@
                &&& e == MutationError::ConflictingOperation
                &&& !touched_present(
                    log.mutations@.map_values(|m: BlockMutation| m@),
                    old(pointer).current@.blocks(),
                )
            },
        },
{
    let ghost ms = log.mutations@.map_values(|m: BlockMutation| m@);
    let base = pointer.read_current().clone();
    let ghost basev = base@;
    match finalize(log, &base, ncols) {
        Err(_) => {
            proof {
                let k = choose|k: int|
                    0 <= k < log.mutations@.len() && find_block_spec(
                        basev.blocks(),
                        (#[trigger] log.mutations@[k]@).block_id,
                    ) is None;
                assert(ms[k] == log.mutations@[k]@);
                assert(!touched_present(ms, basev.blocks()));
            }
            Err(MutationError::ConflictingOperation)
        },
        Ok(d) => {
            proof {
                lemma_applied_rows_bound(
                    ms,
                    basev,
                    log.writer,
                    log.next_seq as int,
                    ncols as nat,
                    d.tv(),
                    d.av(),
                );
                assert(byte_size_of(
                    seg_rows(applied_segments(basev.segments, d.tv(), d.av(), ncols as nat)).len(),
                    ncols as nat,
                ) <= byte_size_of(
                    (seg_rows(basev.segments).len() + blocks_rows(
                        log.appends@.map_values(|b: Block| b@),
                    ).len()) as nat,
                    ncols as nat,
                )) by (nonlinear_arith)
                    requires
                        seg_rows(
                            applied_segments(basev.segments, d.tv(), d.av(), ncols as nat),
                        ).len() <= seg_rows(basev.segments).len() + blocks_rows(
                            log.appends@.map_values(|b: Block| b@),
                        ).len(),
                ;
                assert forall|k: int|
                    0 <= k < d.tv().len() implies ((#[trigger] d.tv()[k]).op
                    matches BlockOpView::Replace(nb) ==> nb.wf(ncols as nat) && nb.rows.len() > 0)
                    by {
                    assert((d.tv()[k]).id == ms[k].block_id);
                }
                assert forall|k: int|
                    0 <= k < d.av().len() implies (#[trigger] d.av()[k]).wf(ncols as nat)
                    && d.av()[k].rows.len() > 0 by {
                    assert(d.av()[k] == log.appends@.map_values(|b: Block| b@)[k]);
                    assert(log.appends@[k]@ == log.appends@.map_values(|b: Block| b@)[k]);
                }
            }
            let c = apply_delta(&base, &d, ncols);
            let published = c.clone();
            let swapped = pointer.compare_and_swap(base.id, published);
            proof {
                assert(swapped);
                let ghost ts = d.tv();
                assert(finalize_post(
                    ms,
                    basev.blocks(),
                    log.writer,
                    log.next_seq as int,
                    ncols as nat,
                    ts,
                ) && c@.segments == applied_segments(
                    basev.segments,
                    ts,
                    log.appends@.map_values(|b: Block| b@),
                    ncols as nat,
                ));
            }
            Ok(c)
        },
    }
}

/// Copies a list of blocks block for block.
pub fn copy_blocks(blocks: &Vec<Block>) -> (r: Vec<Block>)
    ensures
        r@.map_values(|b: Block| b@) == blocks@.map_values(|b: Block| b@),
{
    let mut r: Vec<Block> = Vec::new();
    let mut i: usize = 0;
    while i < blocks.len()
        invariant
            0 <= i <= blocks@.len(),
            r@.map_values(|b: Block| b@) == blocks@.map_values(|b: Block| b@).take(i as int),
        decreases blocks@.len() - i,
    {
        let b = blocks[i].clone();
        r.push(b);
        proof {
            assert(r@.map_values(|b: Block| b@) =~= blocks@.map_values(|b: Block| b@).take(
                i as int,
            ).push(blocks@[i as int]@));
            assert(blocks@.map_values(|b: Block| b@).take(i + 1) =~= blocks@.map_values(
                |b: Block| b@,
            ).take(i as int).push(blocks@[i as int]@));
        }
        i = i + 1;
    }
    proof {
        assert(blocks@.map_values(|b: Block| b@).take(blocks@.len() as int) =~= blocks@.map_values(
            |b: Block| b@,
        ));
    }
    r
}


/// A delta that removes a block list's every block leaves nothing.
pub proof fn lemma_apply_blocks_all_removed(blocks: Seq<BlockView>, ts: Seq<TouchedEntryView>)
    requires
        forall|j: int|
            0 <= j < blocks.len() ==> (find_touched(ts, (#[trigger] blocks[j]).id)
                matches Some(e) && e.op is Remove),
    ensures
        apply_blocks(blocks, ts).len() == 0,
    decreases blocks.len(),
{
    if blocks.len() > 0 {
        assert(forall|j: int|
            0 <= j < blocks.len() - 1 ==> blocks.drop_last()[j] == #[trigger] blocks[j]);
        lemma_apply_blocks_all_removed(blocks.drop_last(), ts);
        assert(blocks[blocks.len() - 1] == blocks.last());
    }
}

/// A delta that removes every block of every segment, with appended
/// blocks `av`, rebuilds the table as the one segment holding `av`.
pub proof fn lemma_full_rebuild(
    segs: Seq<SegmentView>,
    ts: Seq<TouchedEntryView>,
    av: Seq<BlockView>,
    ncols: nat,
)
    requires
        forall|s: int, j: int|
            0 <= s < segs.len() && 0 <= j < segs[s].blocks.len() ==> (find_touched(
                ts,
                (#[trigger] segs[s].blocks[j]).id,
            ) matches Some(e) && e.op is Remove),
    ensures
        applied_segments(segs, ts, av, ncols) == append_segment(av, ncols),
    decreases segs.len(),
{
    if segs.len() == 0 {
        assert(apply_segments(segs, ts, ncols) + append_segment(av, ncols) =~= append_segment(
            av,
            ncols,
        ));
    } else {
        assert(forall|s: int| 0 <= s < segs.len() - 1 ==> segs.drop_last()[s] == #[trigger] segs[s]);
        lemma_full_rebuild(segs.drop_last(), ts, av, ncols);
        assert(segs[segs.len() - 1] == segs.last());
        assert forall|j: int|
            0 <= j < segs.last().blocks.len() implies (find_touched(
            ts,
            (#[trigger] segs.last().blocks[j]).id,
        ) matches Some(e) && e.op is Remove) by {
            assert(segs[segs.len() - 1].blocks[j] == segs.last().blocks[j]);
        }
        lemma_apply_blocks_all_removed(segs.last().blocks, ts);
        assert(apply_segments(segs, ts, ncols) =~= apply_segments(segs.drop_last(), ts, ncols));
        assert(apply_segments(segs, ts, ncols) + append_segment(av, ncols) =~= apply_segments(
            segs.drop_last(),
            ts,
            ncols,
        ) + append_segment(av, ncols));
    }
}

/// `av` chunks `rows`: block `k` holds exactly the rows
/// `k * cap .. min((k + 1) * cap, n)`, every block is non-empty, and the
/// blocks cover all rows — the shape the append stage produces.
pub open spec fn chunked(av: Seq<BlockView>, rows: Seq<Seq<Datum>>, cap: int) -> bool {
    &&& forall|k: int|
        0 <= k < av.len() ==> (#[trigger] av[k]).rows == rows.subrange(
            k * cap,
            crate::append::spec_min((k + 1) * cap, rows.len() as int),
        )
    &&& forall|k: int| 0 <= k < av.len() ==> 1 <= (#[trigger] av[k]).rows.len()
    &&& forall|k: int| 0 <= k < av.len() ==> #[trigger] (k * cap) < rows.len()
    &&& av.len() <= rows.len()
    &&& (rows.len() == 0 ==> av.len() == 0)
    &&& (rows.len() > 0 ==> av.len() * cap >= rows.len())
}

/// Chunking is deterministic: two chunkings of the same rows under the
/// same capacity agree block for block on their rows.
pub proof fn lemma_chunked_unique(
    av1: Seq<BlockView>,
    av2: Seq<BlockView>,
    rows: Seq<Seq<Datum>>,
    cap: int,
)
    requires
        cap >= 1,
        chunked(av1, rows, cap),
        chunked(av2, rows, cap),
    ensures
        av1.len() == av2.len(),
        forall|k: int| 0 <= k < av1.len() ==> (#[trigger] av1[k]).rows == av2[k].rows,
{
    let n = rows.len() as int;
    if n == 0 {
    } else {
        assert(av1.len() == av2.len()) by {
            if av1.len() < av2.len() {
                let l = av1.len() as int;
                assert(l * cap < n);
                assert(av1.len() * cap >= n);
                assert(false);
            }
            if av2.len() < av1.len() {
                let l = av2.len() as int;
                assert(l * cap < n);
                assert(av2.len() * cap >= n);
                assert(false);
            }
        }
    }
}

/// Round trip: deleting every row of every block and re-inserting the
/// same rows yields block, segment, and table statistics identical to a
/// snapshot built directly from those rows.  The round trip leaves one
/// segment chunking the rows exactly as a direct build chunks them, and
/// statistics are a function of content alone.
pub proof fn lemma_round_trip_stats(
    s2: SnapshotView,
    s3: SnapshotView,
    av2: Seq<BlockView>,
    av3: Seq<BlockView>,
    rows: Seq<Seq<Datum>>,
    cap: int,
    ncols: nat,
)
    requires
        s2.wf(ncols),
        s3.wf(ncols),
        cap >= 1,
        chunked(av2, rows, cap),
        chunked(av3, rows, cap),
        s2.segments == append_segment(av2, ncols),
        s3.segments == append_segment(av3, ncols),
    ensures
        s2.summary == s3.summary,
        forall|s: int|
            0 <= s < s2.segments.len() ==> (#[trigger] s2.segments[s]).summary
                == s3.segments[s].summary,
        forall|s: int, j: int|
            0 <= s < s2.segments.len() && 0 <= j < s2.segments[s].blocks.len() ==> (
            #[trigger] s2.segments[s].blocks[j]).stats == s3.segments[s].blocks[j].stats,
{
    lemma_chunked_unique(av2, av3, rows, cap);
    assert(s2.segments.len() == s3.segments.len());
    assert forall|s: int, j: int|
        0 <= s < s2.segments.len() && 0 <= j < s2.segments[s].blocks.len() implies (
    #[trigger] s2.segments[s].blocks[j]).rows == s3.segments[s].blocks[j].rows by {
        assert(s2.segments[s].blocks == av2 && s3.segments[s].blocks == av3);
    }
    crate::snapshot::lemma_stats_follow_content(s2, s3, ncols);
}


/// How many entries are removals.
pub open spec fn count_removes(ts: Seq<TouchedEntryView>) -> nat
    decreases ts.len(),
{
    if ts.len() == 0 {
        0
    } else {
        count_removes(ts.drop_last()) + (if ts.last().op is Remove {
            1nat
        } else {
            0nat
        })
    }
}

/// How many row deletions the log's groups carry in all.
pub open spec fn total_deleted(ms: Seq<BlockMutationView>) -> nat
    decreases ms.len(),
{
    if ms.len() == 0 {
        0
    } else {
        total_deleted(ms.drop_last()) + ms.last().deleted.len()
    }
}

/// How many row replacements the log's groups carry in all.
pub open spec fn total_replaced(ms: Seq<BlockMutationView>) -> nat
    decreases ms.len(),
{
    if ms.len() == 0 {
        0
    } else {
        total_replaced(ms.drop_last()) + ms.last().replaced.len()
    }
}

/// A prefix of the groups never carries more deletions or replacements.
pub proof fn lemma_totals_prefix_le(ms: Seq<BlockMutationView>, i: int)
    requires
        0 <= i <= ms.len(),
    ensures
        total_deleted(ms.take(i)) <= total_deleted(ms),
        total_replaced(ms.take(i)) <= total_replaced(ms),
    decreases ms.len() - i,
{
    if i < ms.len() {
        assert(ms.take(i + 1).drop_last() =~= ms.take(i));
        assert(ms.take(i + 1).last() == ms[i]);
        lemma_totals_prefix_le(ms, i + 1);
    } else {
        assert(ms.take(i) =~= ms);
    }
}

/// What one mutation did, for observation: block and row counts of the
/// finalized outcome.
#[derive(Clone, Copy, Debug, PartialEq, Eq, Structural)]
pub struct MutationMetrics {
    pub blocks_appended: u64,
    pub blocks_replaced: u64,
    pub blocks_removed: u64,
    pub rows_inserted: u64,
    pub rows_updated: u64,
    pub rows_deleted: u64,
}

/// Computes the observable counters of one finalized mutation: blocks
/// appended, replaced and removed from the delta; rows inserted, updated
/// and deleted from the log.
pub fn delta_metrics(delta: &MutationDelta, log: &MutationLog) -> (m: MutationMetrics)
    requires
        delta.tv().len() <= u64::MAX,
        delta.av().len() <= u64::MAX,
        blocks_rows(delta.av()).len() <= u64::MAX,
        total_deleted(log.mutations@.map_values(|x: BlockMutation| x@)) <= u64::MAX,
        total_replaced(log.mutations@.map_values(|x: BlockMutation| x@)) <= u64::MAX,
    ensures
        m.blocks_appended == delta.av().len(),
        m.blocks_replaced == count_replaces(delta.tv()),
        m.blocks_removed == count_removes(delta.tv()),
        m.rows_inserted == blocks_rows(delta.av()).len(),
        m.rows_updated == total_replaced(log.mutations@.map_values(|x: BlockMutation| x@)),
        m.rows_deleted == total_deleted(log.mutations@.map_values(|x: BlockMutation| x@)),
{
    let ghost tsv = delta.tv();
    let ghost av = delta.av();
    let ghost ms = log.mutations@.map_values(|x: BlockMutation| x@);
    let mut blocks_replaced: u64 = 0;
    let mut blocks_removed: u64 = 0;
    let mut i: usize = 0;
    while i < delta.touched.len()
        invariant
            tsv == delta.tv(),
            tsv.len() <= u64::MAX,
            0 <= i <= tsv.len(),
            blocks_replaced == count_replaces(tsv.take(i as int)),
            blocks_removed == count_removes(tsv.take(i as int)),
            blocks_replaced + blocks_removed <= i,
        decreases tsv.len() - i,
    {
        proof {
            assert(tsv.take(i + 1).drop_last() =~= tsv.take(i as int));
            assert(tsv.take(i + 1).last() == tsv[i as int]);
            assert(tsv[i as int] == delta.touched@[i as int]@);
        }
        match &delta.touched[i].op {
            BlockOp::Replace(_) => {
                blocks_replaced = blocks_replaced + 1;
            },
            BlockOp::Remove => {
                blocks_removed = blocks_removed + 1;
            },
        }
        i = i + 1;
    }
    proof {
        assert(tsv.take(tsv.len() as int) =~= tsv);
    }
    let mut rows_inserted: u64 = 0;
    let mut j: usize = 0;
    while j < delta.appends.len()
        invariant
            av == delta.av(),
            blocks_rows(av).len() <= u64::MAX,
            0 <= j <= av.len(),
            rows_inserted == blocks_rows(av.take(j as int)).len(),
        decreases av.len() - j,
    {
        proof {
            crate::block::lemma_blocks_rows_prefix_le(av, j as int);
            crate::block::lemma_blocks_rows_prefix_le(av, j + 1);
            assert(av.take(j + 1).drop_last() =~= av.take(j as int));
            assert(av.take(j + 1).last() == av[j as int]);
            assert(av[j as int] == delta.appends@[j as int]@);
        }
        rows_inserted = rows_inserted + (delta.appends[j].rows.len() as u64);
        j = j + 1;
    }
    proof {
        assert(av.take(av.len() as int) =~= av);
    }
    let mut rows_updated: u64 = 0;
    let mut rows_deleted: u64 = 0;
    let mut k: usize = 0;
    while k < log.mutations.len()
        invariant
            ms == log.mutations@.map_values(|x: BlockMutation| x@),
            total_deleted(ms) <= u64::MAX,
            total_replaced(ms) <= u64::MAX,
            0 <= k <= ms.len(),
            rows_updated == total_replaced(ms.take(k as int)),
            rows_deleted == total_deleted(ms.take(k as int)),
        decreases ms.len() - k,
    {
        proof {
            lemma_totals_prefix_le(ms, k as int);
            lemma_totals_prefix_le(ms, k + 1);
            assert(ms.take(k + 1).drop_last() =~= ms.take(k as int));
            assert(ms.take(k + 1).last() == ms[k as int]);
            assert(ms[k as int] == log.mutations@[k as int]@);
        }
        rows_updated = rows_updated + (log.mutations[k].replaced.len() as u64);
        rows_deleted = rows_deleted + (log.mutations[k].deleted.len() as u64);
        k = k + 1;
    }
    proof {
        assert(ms.take(ms.len() as int) =~= ms);
    }
    MutationMetrics {
        blocks_appended: delta.appends.len() as u64,
        blocks_replaced,
        blocks_removed,
        rows_inserted,
        rows_updated,
        rows_deleted,
    }
}

} // verus!
