//! Row-level mutation intents and their per-partition aggregation.
//!
//! Matching produces, per source row, a transient intent: insert a new
//! row, delete a matched target row, or replace it.  Each partition owns a
//! disjoint set of target blocks; its aggregator groups the intents for
//! those blocks by block id.  Applying a group to a block keeps every row
//! that no intent touched, swaps replaced rows in place, drops deleted
//! ones, and — since blocks are immutable — emits the result as a new
//! block under a new identity, or removes the block when no row survives.

use vstd::prelude::*;
use crate::datum::{Datum, rows_have_width, rows_view};
use crate::errors::MutationError;
use crate::block::{Block, BlockId, BlockView, make_block};
use crate::stats::byte_size_of;

verus! {

/// A transient, per-row decision produced during matching.
#[derive(Debug)]
pub enum MutationIntent {
    /// An unmatched source row becomes a new row of the table.
    Insert { row: Vec<Datum> },
    /// The matched target row is deleted.
    Delete { block: BlockId, offset: u64 },
    /// The matched target row is replaced by `row`.
    Replace { block: BlockId, offset: u64, row: Vec<Datum> },
}

/// One replaced row within a block.
#[derive(Debug)]
pub struct RowReplacement {
    pub offset: u64,
    pub row: Vec<Datum>,
}

/// Mathematical image of a [`RowReplacement`].
pub struct RowReplacementView {
    pub offset: u64,
    pub row: Seq<Datum>,
}

impl View for RowReplacement {
    type V = RowReplacementView;

    open spec fn view(&self) -> RowReplacementView {
        RowReplacementView { offset: self.offset, row: self.row@ }
    }
}

/// All row intents one block received, grouped.
#[derive(Debug)]
pub struct BlockMutation {
    pub block_id: BlockId,
    pub deleted: Vec<u64>,
    pub replaced: Vec<RowReplacement>,
}

/// Mathematical image of a [`BlockMutation`].
pub struct BlockMutationView {
    pub block_id: BlockId,
    pub deleted: Seq<u64>,
    pub replaced: Seq<RowReplacementView>,
}

impl View for BlockMutation {
    type V = BlockMutationView;

    open spec fn view(&self) -> BlockMutationView {
        BlockMutationView {
            block_id: self.block_id,
            deleted: self.deleted@,
            replaced: self.replaced@.map_values(|r: RowReplacement| r@),
        }
    }
}

/// What became of one row offset under a group of intents.
pub enum RowFate {
    Untouched,
    Deleted,
    Replaced(Seq<Datum>),
}

/// `o` occurs among the deleted offsets.
pub open spec fn spec_deleted(deleted: Seq<u64>, o: int) -> bool {
    exists|i: int| 0 <= i < deleted.len() && deleted[i] == o
}

/// The first replacement recorded for offset `o`, if any.
pub open spec fn find_replacement(rs: Seq<RowReplacementView>, o: int) -> Option<Seq<Datum>>
    decreases rs.len(),
{
    if rs.len() == 0 {
        None
    } else if rs.first().offset == o {
        Some(rs.first().row)
    } else {
        find_replacement(rs.drop_first(), o)
    }
}

impl BlockMutationView {
    /// The fate of row offset `o` under this group.
    pub open spec fn fate(self, o: int) -> RowFate {
        if spec_deleted(self.deleted, o) {
            RowFate::Deleted
        } else {
            match find_replacement(self.replaced, o) {
                Some(r) => RowFate::Replaced(r),
                None => RowFate::Untouched,
            }
        }
    }

    /// Every replacement row has `ncols` cells.
    pub open spec fn wf(self, ncols: nat) -> bool {
        forall|i: int| 0 <= i < self.replaced.len() ==> (#[trigger] self.replaced[i]).row.len()
            == ncols
    }
}

/// The rows surviving a group of intents: kept rows in order, replaced
/// rows swapped in place, deleted rows gone.  Every row no intent touched
/// is preserved physically.
pub open spec fn surviving_rows(rows: Seq<Seq<Datum>>, bm: BlockMutationView) -> Seq<Seq<Datum>>
    decreases rows.len(),
{
    if rows.len() == 0 {
        Seq::empty()
    } else {
        surviving_rows(rows.drop_last(), bm) + match bm.fate(rows.len() - 1) {
            RowFate::Untouched => seq![rows.last()],
            RowFate::Deleted => Seq::empty(),
            RowFate::Replaced(r) => seq![r],
        }
    }
}

/// No more rows survive than there were.
pub proof fn lemma_surviving_le(rows: Seq<Seq<Datum>>, bm: BlockMutationView)
    ensures
        surviving_rows(rows, bm).len() <= rows.len(),
    decreases rows.len(),
{
    if rows.len() > 0 {
        lemma_surviving_le(rows.drop_last(), bm);
    }
}

/// Surviving rows keep the table's width.
pub proof fn lemma_surviving_width(rows: Seq<Seq<Datum>>, bm: BlockMutationView, ncols: nat)
    requires
        rows_have_width(rows, ncols),
        bm.wf(ncols),
    ensures
        rows_have_width(surviving_rows(rows, bm), ncols),
    decreases rows.len(),
{
    if rows.len() > 0 {
        assert(rows_have_width(rows.drop_last(), ncols));
        lemma_surviving_width(rows.drop_last(), bm, ncols);
        match bm.fate(rows.len() - 1) {
            RowFate::Replaced(r) => {
                lemma_find_replacement_width(bm.replaced, rows.len() - 1, ncols);
            },
            _ => {},
        }
    }
}

/// Two groups decreeing the same fate for every row leave the same
/// surviving rows.
pub proof fn lemma_surviving_fate_congruence(
    rows: Seq<Seq<Datum>>,
    a: BlockMutationView,
    b: BlockMutationView,
)
    requires
        forall|o: int| #[trigger] a.fate(o) == b.fate(o),
    ensures
        surviving_rows(rows, a) == surviving_rows(rows, b),
    decreases rows.len(),
{
    if rows.len() > 0 {
        lemma_surviving_fate_congruence(rows.drop_last(), a, b);
    }
}

/// A found replacement row has the width its group promises.
proof fn lemma_find_replacement_width(rs: Seq<RowReplacementView>, o: int, ncols: nat)
    requires
        forall|i: int| 0 <= i < rs.len() ==> (#[trigger] rs[i]).row.len() == ncols,
    ensures
        find_replacement(rs, o) matches Some(r) ==> r.len() == ncols,
    decreases rs.len(),
{
    if rs.len() > 0 {
        assert(forall|i: int|
            0 <= i < rs.drop_first().len() ==> #[trigger] rs.drop_first()[i] == rs[i + 1]);
        lemma_find_replacement_width(rs.drop_first(), o, ncols);
    }
}

/// Tests whether `o` occurs among the offsets `v`.
pub fn contains_offset(v: &Vec<u64>, o: u64) -> (r: bool)
    ensures
        r == spec_deleted(v@, o as int),
{
    let mut i: usize = 0;
    while i < v.len()
        invariant
            0 <= i <= v@.len(),
            forall|k: int| 0 <= k < i ==> v@[k] != o,
        decreases v@.len() - i,
    {
        if v[i] == o {
            assert(v@[i as int] == o);
            return true;
        }
        i = i + 1;
    }
    false
}

/// Finds the first replacement recorded for `o`.
pub fn find_repl_index(rs: &Vec<RowReplacement>, o: u64) -> (r: Option<usize>)
    ensures
        match r {
            Some(ix) => {
                &&& 0 <= ix < rs@.len()
                &&& rs@[ix as int]@.offset == o
                &&& find_replacement(rs@.map_values(|x: RowReplacement| x@), o as int) == Some(
                    rs@[ix as int]@.row,
                )
            },
            None => find_replacement(rs@.map_values(|x: RowReplacement| x@), o as int) is None,
        },
{
    let ghost rv = rs@.map_values(|x: RowReplacement| x@);
    let mut i: usize = 0;
    while i < rs.len()
        invariant
            rv == rs@.map_values(|x: RowReplacement| x@),
            0 <= i <= rv.len(),
            forall|k: int| 0 <= k < i ==> (#[trigger] rv[k]).offset != o,
        decreases rv.len() - i,
    {
        if rs[i].offset == o {
            proof {
                lemma_find_replacement_at(rv, o as int, i as int);
            }
            return Some(i);
        }
        i = i + 1;
    }
    proof {
        lemma_find_replacement_none(rv, o as int);
    }
    None
}

/// Lookup at a known first occurrence.
pub proof fn lemma_find_replacement_at(rs: Seq<RowReplacementView>, o: int, i: int)
    requires
        0 <= i < rs.len(),
        rs[i].offset == o,
        forall|k: int| 0 <= k < i ==> (#[trigger] rs[k]).offset != o,
    ensures
        find_replacement(rs, o) == Some(rs[i].row),
    decreases i,
{
    assert(forall|k: int|
        0 <= k < rs.drop_first().len() ==> #[trigger] rs.drop_first()[k] == rs[k + 1]);
    if i > 0 {
        lemma_find_replacement_at(rs.drop_first(), o, i - 1);
    }
}

/// Lookup misses when the offset was never replaced.
pub proof fn lemma_find_replacement_none(rs: Seq<RowReplacementView>, o: int)
    requires
        forall|k: int| 0 <= k < rs.len() ==> (#[trigger] rs[k]).offset != o,
    ensures
        find_replacement(rs, o) is None,
    decreases rs.len(),
{
    if rs.len() > 0 {
        assert(forall|k: int|
            0 <= k < rs.drop_first().len() ==> #[trigger] rs.drop_first()[k] == rs[k + 1]);
        lemma_find_replacement_none(rs.drop_first(), o);
    }
}

/// Applies a group of intents to the block it names.
///
/// Returns the rewritten block under the fresh identity `new_id`, or
/// `None` when every row was deleted and the block disappears.  Rows no
/// intent touched are preserved physically, in order.
pub fn apply_block_mutation(block: &Block, bm: &BlockMutation, new_id: BlockId, ncols: usize) -> (r:
    Option<Block>)
    requires
        block@.wf(ncols as nat),
        bm@.wf(ncols as nat),
        block@.rows.len() <= u64::MAX,
        byte_size_of(block@.rows.len(), ncols as nat) <= u64::MAX,
    ensures
        match r {
            Some(nb) => {
                &&& nb@.id == new_id
                &&& nb@.rows == surviving_rows(block@.rows, bm@)
                &&& nb@.wf(ncols as nat)
            },
            None => surviving_rows(block@.rows, bm@).len() == 0,
        },
{
    let ghost rv = block@.rows;
    let mut out: Vec<Vec<Datum>> = Vec::new();
    let mut i: usize = 0;
    while i < block.rows.len()
        invariant
            rv == block@.rows,
            bm@.wf(ncols as nat),
            0 <= i <= rv.len(),
            rows_view(out@) == surviving_rows(rv.take(i as int), bm@),
            out@.len() <= i,
        decreases rv.len() - i,
    {
        proof {
            assert(rv.take(i + 1).drop_last() =~= rv.take(i as int));
            assert(rv.take(i + 1).last() == rv[i as int]);
            assert(rv[i as int] == block.rows@[i as int]@);
        }
        let o = i as u64;
        if contains_offset(&bm.deleted, o) {
            proof {
                assert(surviving_rows(rv.take(i + 1), bm@) =~= surviving_rows(
                    rv.take(i as int),
                    bm@,
                ));
            }
        } else {
            match find_repl_index(&bm.replaced, o) {
                Some(ix) => {
                    let row = crate::block::copy_row(&bm.replaced[ix].row);
                    out.push(row);
                    proof {
                        assert(rows_view(out@) =~= surviving_rows(rv.take(i + 1), bm@));
                    }
                },
                None => {
                    let row = crate::block::copy_row(&block.rows[i]);
                    out.push(row);
                    proof {
                        assert(rows_view(out@) =~= surviving_rows(rv.take(i + 1), bm@));
                    }
                },
            }
        }
        i = i + 1;
    }
    proof {
        assert(rv.take(rv.len() as int) =~= rv);
    }
    if out.len() == 0 {
        return None;
    }
    proof {
        lemma_surviving_width(rv, bm@, ncols as nat);
        assert(byte_size_of(out@.len(), ncols as nat) <= byte_size_of(rv.len(), ncols as nat))
            by (nonlinear_arith)
            requires
                out@.len() <= rv.len(),
        ;
    }
    Some(make_block(new_id, out, ncols))
}

/// The first group recorded for a block id, if any.
pub open spec fn find_mutation(ms: Seq<BlockMutationView>, id: BlockId) -> Option<BlockMutationView>
    decreases ms.len(),
{
    if ms.len() == 0 {
        None
    } else if ms.first().block_id == id {
        Some(ms.first())
    } else {
        find_mutation(ms.drop_first(), id)
    }
}

/// The fate of row `o` of block `id` under a list of groups.
pub open spec fn fate_of(ms: Seq<BlockMutationView>, id: BlockId, o: int) -> RowFate {
    match find_mutation(ms, id) {
        None => RowFate::Untouched,
        Some(bm) => bm.fate(o),
    }
}

/// Lookup at a known first occurrence.
pub proof fn lemma_find_mutation_at(ms: Seq<BlockMutationView>, id: BlockId, i: int)
    requires
        0 <= i < ms.len(),
        ms[i].block_id == id,
        forall|k: int| 0 <= k < i ==> (#[trigger] ms[k]).block_id != id,
    ensures
        find_mutation(ms, id) == Some(ms[i]),
    decreases i,
{
    assert(forall|k: int|
        0 <= k < ms.drop_first().len() ==> #[trigger] ms.drop_first()[k] == ms[k + 1]);
    if i > 0 {
        lemma_find_mutation_at(ms.drop_first(), id, i - 1);
    }
}

/// A missed group lookup means no group carries the id.
pub proof fn lemma_find_mutation_none_char(ms: Seq<BlockMutationView>, id: BlockId)
    requires
        find_mutation(ms, id) is None,
    ensures
        forall|k: int| 0 <= k < ms.len() ==> (#[trigger] ms[k]).block_id != id,
    decreases ms.len(),
{
    if ms.len() > 0 {
        lemma_find_mutation_none_char(ms.drop_first(), id);
        assert(forall|k: int|
            0 <= k < ms.drop_first().len() ==> #[trigger] ms.drop_first()[k] == ms[k + 1]);
        assert forall|k: int| 0 <= k < ms.len() implies (#[trigger] ms[k]).block_id != id by {
            if k > 0 {
                assert(ms.drop_first()[k - 1] == ms[k]);
            }
        }
    }
}

/// Lookup misses when the block id occurs nowhere.
pub proof fn lemma_find_mutation_none(ms: Seq<BlockMutationView>, id: BlockId)
    requires
        forall|k: int| 0 <= k < ms.len() ==> (#[trigger] ms[k]).block_id != id,
    ensures
        find_mutation(ms, id) is None,
    decreases ms.len(),
{
    if ms.len() > 0 {
        assert(forall|k: int|
            0 <= k < ms.drop_first().len() ==> #[trigger] ms.drop_first()[k] == ms[k + 1]);
        lemma_find_mutation_none(ms.drop_first(), id);
    }
}

/// Finds the first group recorded for `id`.
pub fn find_mutation_index(ms: &Vec<BlockMutation>, id: BlockId) -> (r: Option<usize>)
    ensures
        match r {
            Some(ix) => {
                &&& 0 <= ix < ms@.len()
                &&& ms@[ix as int]@.block_id == id
                &&& forall|k: int| 0 <= k < ix ==> (#[trigger] ms@[k]@).block_id != id
                &&& find_mutation(ms@.map_values(|m: BlockMutation| m@), id) == Some(
                    ms@[ix as int]@,
                )
            },
            None => find_mutation(ms@.map_values(|m: BlockMutation| m@), id) is None,
        },
{
    let ghost mv = ms@.map_values(|m: BlockMutation| m@);
    let mut i: usize = 0;
    while i < ms.len()
        invariant
            mv == ms@.map_values(|m: BlockMutation| m@),
            0 <= i <= mv.len(),
            forall|k: int| 0 <= k < i ==> (#[trigger] mv[k]).block_id != id,
        decreases mv.len() - i,
    {
        if ms[i].block_id.writer == id.writer && ms[i].block_id.seq == id.seq {
            proof {
                lemma_find_mutation_at(mv, id, i as int);
                assert forall|k: int| 0 <= k < i implies (#[trigger] ms@[k]@).block_id != id by {
                    assert(mv[k] == ms@[k]@);
                }
            }
            return Some(i);
        }
        i = i + 1;
    }
    proof {
        lemma_find_mutation_none(mv, id);
    }
    None
}

/// Appending a deleted offset deletes exactly that offset more.
pub proof fn lemma_spec_deleted_push(d: Seq<u64>, x: u64, o: int)
    ensures
        spec_deleted(d.push(x), o) == (spec_deleted(d, o) || x == o),
{
    if spec_deleted(d.push(x), o) {
        let i = choose|i: int| 0 <= i < d.push(x).len() && d.push(x)[i] == o;
        if i < d.len() {
            assert(d[i] == o);
        } else {
            assert(d.push(x)[i] == x);
        }
    }
    if spec_deleted(d, o) {
        let i = choose|i: int| 0 <= i < d.len() && d[i] == o;
        assert(d.push(x)[i] == o);
    }
    if x == o {
        assert(d.push(x)[d.len() as int] == o);
    }
}

/// Appending a replacement changes lookups only at its own offset, and
/// only when that offset had none.
pub proof fn lemma_find_replacement_push(rs: Seq<RowReplacementView>, x: RowReplacementView, o: int)
    ensures
        find_replacement(rs.push(x), o) == if find_replacement(rs, o) is Some {
            find_replacement(rs, o)
        } else if x.offset == o {
            Some(x.row)
        } else {
            None
        },
    decreases rs.len(),
{
    if rs.len() == 0 {
        assert(rs.push(x).first() == x);
        assert(rs.push(x).drop_first() =~= Seq::<RowReplacementView>::empty());
        assert(find_replacement(Seq::<RowReplacementView>::empty(), o) is None);
    } else {
        assert(rs.push(x).first() == rs.first());
        assert(rs.push(x).drop_first() =~= rs.drop_first().push(x));
        lemma_find_replacement_push(rs.drop_first(), x, o);
    }
}

/// A found replacement comes from some entry carrying the offset.
pub proof fn lemma_find_replacement_some_char(rs: Seq<RowReplacementView>, o: int)
    ensures
        find_replacement(rs, o) matches Some(r) ==> exists|i: int|
            0 <= i < rs.len() && (#[trigger] rs[i]).offset == o && rs[i].row == r,
    decreases rs.len(),
{
    if rs.len() > 0 && !(rs.first().offset == o) {
        lemma_find_replacement_some_char(rs.drop_first(), o);
        assert(forall|i: int|
            0 <= i < rs.drop_first().len() ==> #[trigger] rs.drop_first()[i] == rs[i + 1]);
        if find_replacement(rs, o) is Some {
            let r = find_replacement(rs, o)->Some_0;
            let i = choose|i: int|
                0 <= i < rs.drop_first().len() && (#[trigger] rs.drop_first()[i]).offset == o
                    && rs.drop_first()[i].row == r;
            assert(rs[i + 1].offset == o && rs[i + 1].row == r);
        }
    }
}

/// A missed replacement lookup means no entry carries the offset.
pub proof fn lemma_find_replacement_none_char(rs: Seq<RowReplacementView>, o: int)
    requires
        find_replacement(rs, o) is None,
    ensures
        forall|i: int| 0 <= i < rs.len() ==> (#[trigger] rs[i]).offset != o,
    decreases rs.len(),
{
    if rs.len() > 0 {
        lemma_find_replacement_none_char(rs.drop_first(), o);
        assert(forall|i: int|
            0 <= i < rs.drop_first().len() ==> #[trigger] rs.drop_first()[i] == rs[i + 1]);
        assert forall|i: int| 0 <= i < rs.len() implies (#[trigger] rs[i]).offset != o by {
            if i > 0 {
                assert(rs.drop_first()[i - 1] == rs[i]);
            }
        }
    }
}

/// Appending a group changes lookups only for its own block id, and only
/// when that id had none.
pub proof fn lemma_find_mutation_push(ms: Seq<BlockMutationView>, m: BlockMutationView, id: BlockId)
    ensures
        find_mutation(ms.push(m), id) == if find_mutation(ms, id) is Some {
            find_mutation(ms, id)
        } else if m.block_id == id {
            Some(m)
        } else {
            None
        },
    decreases ms.len(),
{
    if ms.len() == 0 {
        assert(ms.push(m).first() == m);
        assert(ms.push(m).drop_first() =~= Seq::<BlockMutationView>::empty());
    } else {
        assert(ms.push(m).first() == ms.first());
        assert(ms.push(m).drop_first() =~= ms.drop_first().push(m));
        lemma_find_mutation_push(ms.drop_first(), m, id);
    }
}

/// Updating one group in place is invisible to lookups of other ids.
pub proof fn lemma_find_mutation_update_other(
    ms: Seq<BlockMutationView>,
    ix: int,
    bm2: BlockMutationView,
    id2: BlockId,
)
    requires
        0 <= ix < ms.len(),
        ms[ix].block_id != id2,
        bm2.block_id == ms[ix].block_id,
    ensures
        find_mutation(ms.update(ix, bm2), id2) == find_mutation(ms, id2),
    decreases ms.len(),
{
    let ms2 = ms.update(ix, bm2);
    if ix == 0 {
        assert(ms2.first() == bm2);
        assert(ms2.drop_first() =~= ms.drop_first());
    } else {
        assert(ms2.first() == ms.first());
        assert(ms2.drop_first() =~= ms.drop_first().update(ix - 1, bm2));
        lemma_find_mutation_update_other(ms.drop_first(), ix - 1, bm2, id2);
    }
}

impl BlockMutationView {
    /// The group's lists are in reduced form: replacement offsets are
    /// pairwise distinct and no replaced offset is also deleted.
    pub open spec fn tidy(self) -> bool {
        &&& forall|i: int, j: int|
            0 <= i < j < self.replaced.len() ==> (#[trigger] self.replaced[i]).offset != (
            #[trigger] self.replaced[j]).offset
        &&& forall|i: int|
            0 <= i < self.replaced.len() ==> !spec_deleted(
                self.deleted,
                (#[trigger] self.replaced[i]).offset as int,
            )
    }
}

/// The block id an intent addresses.  Meaningful for matched intents
/// only; an insert addresses no existing block.
pub open spec fn intent_block(intent: MutationIntent) -> BlockId {
    match intent {
        MutationIntent::Insert { .. } => BlockId { writer: 0, seq: 0 },
        MutationIntent::Delete { block, .. } => block,
        MutationIntent::Replace { block, .. } => block,
    }
}

/// The row offset an intent addresses.
pub open spec fn intent_offset(intent: MutationIntent) -> int {
    match intent {
        MutationIntent::Insert { .. } => 0,
        MutationIntent::Delete { offset, .. } => offset as int,
        MutationIntent::Replace { offset, .. } => offset as int,
    }
}

/// The fate an intent decrees for the row it addresses.
pub open spec fn intent_fate(intent: MutationIntent) -> RowFate {
    match intent {
        MutationIntent::Insert { .. } => RowFate::Untouched,
        MutationIntent::Delete { .. } => RowFate::Deleted,
        MutationIntent::Replace { row, .. } => RowFate::Replaced(row@),
    }
}

/// Per-partition aggregator: consumes the matched intents for the blocks
/// its partition owns and groups them by block id.
#[derive(Debug)]
pub struct MergeIntoOperationAggregator {
    /// The blocks this partition owns.
    pub owned: Vec<BlockId>,
    /// Intents received so far, grouped by block.
    pub mutations: Vec<BlockMutation>,
}

impl MergeIntoOperationAggregator {
    /// The grouped intents, as views.
    pub open spec fn mv(self) -> Seq<BlockMutationView> {
        self.mutations@.map_values(|m: BlockMutation| m@)
    }

    /// This partition owns block `id`.
    pub open spec fn owns(self, id: BlockId) -> bool {
        exists|i: int| 0 <= i < self.owned@.len() && self.owned@[i] == id
    }

    /// Every group is reduced, its replacement rows have the table's
    /// width, and each block id is grouped at most once.
    pub open spec fn wf(self, ncols: nat) -> bool {
        &&& forall|k: int|
            0 <= k < self.mv().len() ==> (#[trigger] self.mv()[k]).wf(ncols) && self.mv()[k].tidy()
        &&& forall|k1: int, k2: int|
            0 <= k1 < k2 < self.mv().len() ==> (#[trigger] self.mv()[k1]).block_id != (
            #[trigger] self.mv()[k2]).block_id
    }

    /// Creates an aggregator for the partition owning `owned`.
    pub fn create(owned: Vec<BlockId>) -> (r: Self)
        ensures
            r.owned@ == owned@,
            r.mv().len() == 0,
            forall|id: BlockId, o: int| fate_of(r.mv(), id, o) is Untouched,
            forall|ncols: nat| r.wf(ncols),
    {
        let r = MergeIntoOperationAggregator { owned, mutations: Vec::new() };
        proof {
            assert(r.mv() =~= Seq::<BlockMutationView>::empty());
        }
        r
    }

    /// Folds one matched intent into the partition's groups.
    ///
    /// Succeeds exactly when the intent addresses an owned block whose
    /// row the partition has not touched yet: the one-match-per-row
    /// invariant makes a second intent on the same row a partitioning
    /// bug, reported as `ConflictingOperation`, and an intent on a
    /// foreign block likewise.  On success only the addressed row's fate
    /// changes, to what the intent decrees.
    #[verifier::rlimit(60)]
    pub fn accumulate(&mut self, intent: MutationIntent, ncols: usize) -> (r: Result<
        (),
        MutationError,
    >)
        requires
            !(intent is Insert),
            old(self).wf(ncols as nat),
            intent matches MutationIntent::Replace { row, .. } ==> row@.len() == ncols,
        ensures
            final(self).owned@ == old(self).owned@,
            final(self).wf(ncols as nat),
            r is Ok <==> old(self).owns(intent_block(intent)) && fate_of(
                old(self).mv(),
                intent_block(intent),
                intent_offset(intent),
            ) is Untouched,
            r is Ok ==> forall|id: BlockId, o: int|
                #[trigger] fate_of(final(self).mv(), id, o) == if id == intent_block(intent) && o
                    == intent_offset(intent) {
                    intent_fate(intent)
                } else {
                    fate_of(old(self).mv(), id, o)
                },
            r matches Err(e) ==> e == MutationError::ConflictingOperation && final(self).mv()
                == old(self).mv(),
    {
        let ghost pre = self.mv();
        let (block, offset, repl) = match intent {
            MutationIntent::Delete { block, offset } => (block, offset, None),
            MutationIntent::Replace { block, offset, row } => (block, offset, Some(row)),
            MutationIntent::Insert { .. } => {
                proof {
                    assert(false);
                }
                return Err(MutationError::ConflictingOperation);
            },
        };
        if !contains_id(&self.owned, block) {
            return Err(MutationError::ConflictingOperation);
        }
        match find_mutation_index(&self.mutations, block) {
            Some(ix) => {
                let ghost bm_old = pre[ix as int];
                if contains_offset(&self.mutations[ix].deleted, offset) {
                    return Err(MutationError::ConflictingOperation);
                }
                if find_repl_index(&self.mutations[ix].replaced, offset).is_some() {
                    return Err(MutationError::ConflictingOperation);
                }
                let entry = &mut self.mutations[ix];
                match repl {
                    None => entry.deleted.push(offset),
                    Some(row) => entry.replaced.push(RowReplacement { offset, row }),
                }
                proof {
                    let post = self.mv();
                    let bm_new = self.mutations@[ix as int]@;
                    assert(post =~= pre.update(ix as int, bm_new));
                    lemma_find_mutation_at(post, block, ix as int);
                    lemma_find_replacement_none_char(bm_old.replaced, offset as int);
                    assert forall|id: BlockId, o: int|
                        #[trigger] fate_of(post, id, o) == if id == block && o == offset as int {
                            intent_fate(intent)
                        } else {
                            fate_of(pre, id, o)
                        } by {
                        if id == block {
                            lemma_spec_deleted_push(bm_old.deleted, offset, o);
                            if bm_new.replaced != bm_old.replaced {
                                lemma_find_replacement_push(
                                    bm_old.replaced,
                                    bm_new.replaced.last(),
                                    o,
                                );
                                assert(bm_new.replaced =~= bm_old.replaced.push(
                                    bm_new.replaced.last(),
                                ));
                            }
                        } else {
                            lemma_find_mutation_update_other(pre, ix as int, bm_new, id);
                        }
                    }
                    assert forall|k1: int, k2: int|
                        0 <= k1 < k2 < post.len() implies (#[trigger] post[k1]).block_id != (
                    #[trigger] post[k2]).block_id by {
                        assert(post[k1].block_id == pre[k1].block_id);
                        assert(post[k2].block_id == pre[k2].block_id);
                    }
                    assert forall|k: int|
                        0 <= k < post.len() implies (#[trigger] post[k]).wf(ncols as nat)
                        && post[k].tidy() by {
                        if k == ix {
                            lemma_spec_deleted_push(bm_old.deleted, offset, offset as int);
                            assert forall|i: int|
                                0 <= i < bm_new.replaced.len() implies !spec_deleted(
                                bm_new.deleted,
                                (#[trigger] bm_new.replaced[i]).offset as int,
                            ) by {
                                lemma_spec_deleted_push(
                                    bm_old.deleted,
                                    offset,
                                    bm_new.replaced[i].offset as int,
                                );
                                if i < bm_old.replaced.len() {
                                    assert(bm_old.replaced[i] == bm_new.replaced[i]);
                                }
                            }
                            assert forall|i: int|
                                0 <= i < bm_new.replaced.len() implies (
                            #[trigger] bm_new.replaced[i]).row.len() == ncols by {
                                if i < bm_old.replaced.len() {
                                    assert(bm_old.replaced[i] == bm_new.replaced[i]);
                                    assert(bm_old.wf(ncols as nat));
                                }
                            }
                            assert forall|i: int, j: int|
                                0 <= i < j < bm_new.replaced.len() implies (
                            #[trigger] bm_new.replaced[i]).offset != (
                            #[trigger] bm_new.replaced[j]).offset by {
                                if j < bm_old.replaced.len() {
                                    assert(bm_old.replaced[i] == bm_new.replaced[i]);
                                    assert(bm_old.replaced[j] == bm_new.replaced[j]);
                                } else {
                                    assert(bm_old.replaced[i] == bm_new.replaced[i]);
                                }
                            }
                        } else {
                            assert(post[k] == pre[k]);
                        }
                    }
                }
                Ok(())
            },
            None => {
                let bm = match repl {
                    None => BlockMutation {
                        block_id: block,
                        deleted: vec_of_one(offset),
                        replaced: Vec::new(),
                    },
                    Some(row) => BlockMutation {
                        block_id: block,
                        deleted: Vec::new(),
                        replaced: vec_of_one(RowReplacement { offset, row }),
                    },
                };
                let ghost bmv = bm@;
                self.mutations.push(bm);
                proof {
                    let post = self.mv();
                    assert(post =~= pre.push(bmv));
                    assert forall|id: BlockId, o: int|
                        #[trigger] fate_of(post, id, o) == if id == block && o == offset as int {
                            intent_fate(intent)
                        } else {
                            fate_of(pre, id, o)
                        } by {
                        lemma_find_mutation_push(pre, bmv, id);
                        if id == block {
                            assert(bmv.deleted.len() + bmv.replaced.len() == 1);
                            if bmv.deleted.len() == 1 {
                                assert(spec_deleted(bmv.deleted, o) == (o == offset as int));
                            } else {
                                assert(bmv.replaced =~= Seq::<
                                    RowReplacementView,
                                >::empty().push(bmv.replaced[0]));
                                lemma_find_replacement_push(
                                    Seq::<RowReplacementView>::empty(),
                                    bmv.replaced[0],
                                    o,
                                );
                            }
                        }
                    }
                    lemma_find_mutation_none_char(pre, block);
                    assert forall|k1: int, k2: int|
                        0 <= k1 < k2 < post.len() implies (#[trigger] post[k1]).block_id != (
                    #[trigger] post[k2]).block_id by {
                        if k2 < pre.len() {
                            assert(post[k1] == pre[k1] && post[k2] == pre[k2]);
                        } else {
                            assert(post[k1] == pre[k1] && post[k2] == bmv);
                        }
                    }
                    assert forall|k: int|
                        0 <= k < post.len() implies (#[trigger] post[k]).wf(ncols as nat)
                        && post[k].tidy() by {
                        if k < pre.len() {
                            assert(post[k] == pre[k]);
                        } else {
                            assert(post[k] == bmv);
                            assert(bmv.replaced.len() <= 1);
                            if bmv.replaced.len() == 1 {
                                assert(bmv.replaced[0].row.len() == ncols);
                                assert(bmv.deleted.len() == 0);
                            }
                        }
                    }
                }
                Ok(())
            },
        }
    }

    /// Hands the grouped intents over to the table-level fold.
    pub fn finish(self) -> (r: Vec<BlockMutation>)
        ensures
            r@.map_values(|m: BlockMutation| m@) == self.mv(),
    {
        self.mutations
    }
}

/// Tests whether `id` occurs among `v`.
pub fn contains_id(v: &Vec<BlockId>, id: BlockId) -> (r: bool)
    ensures
        r == exists|i: int| 0 <= i < v@.len() && v@[i] == id,
{
    let mut i: usize = 0;
    while i < v.len()
        invariant
            0 <= i <= v@.len(),
            forall|k: int| 0 <= k < i ==> v@[k] != id,
        decreases v@.len() - i,
    {
        if v[i].writer == id.writer && v[i].seq == id.seq {
            assert(v@[i as int] == id);
            return true;
        }
        i = i + 1;
    }
    false
}

/// A vector holding one element.
fn vec_of_one<T>(x: T) -> (r: Vec<T>)
    ensures
        r@.len() == 1,
        r@[0] == x,
{
    let mut r: Vec<T> = Vec::new();
    r.push(x);
    r
}

} // verus!
