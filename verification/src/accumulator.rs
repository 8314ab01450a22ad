//! The table-level fold of block operations into one mutation log.
//!
//! Partitions emit their grouped intents and newly written blocks
//! independently; the accumulator folds them into a single, table-scoped
//! outcome.  Two groups touching the same block merge — deletions union,
//! never silently overwrite — and logically incompatible operations (a
//! replacement of a row another partition deleted or replaced) fail the
//! fold.  Over groups touching distinct blocks the fold is commutative
//! and associative, so no arrival order is required.

use vstd::prelude::*;
use crate::datum::Datum;
use crate::errors::MutationError;
use crate::block::{Block, BlockId, BlockView};
use crate::aggregator::{
    BlockMutation, BlockMutationView, RowFate, RowReplacement, RowReplacementView, contains_offset,
    fate_of, find_mutation, find_mutation_index, find_replacement, find_repl_index,
    lemma_find_mutation_at, lemma_find_mutation_push, lemma_find_mutation_update_other,
    lemma_find_replacement_at, lemma_find_replacement_none_char, lemma_find_replacement_push,
    lemma_find_mutation_none_char, lemma_find_replacement_some_char, lemma_spec_deleted_push,
    spec_deleted, surviving_rows,
};

verus! {

/// Whether two independently decided fates for one row can compose:
/// anything composes with an untouched row, and two deletions compose
/// with each other; a replacement never composes with another decision.
pub open spec fn fates_compat(a: RowFate, b: RowFate) -> bool {
    match (a, b) {
        (RowFate::Untouched, _) => true,
        (_, RowFate::Untouched) => true,
        (RowFate::Deleted, RowFate::Deleted) => true,
        _ => false,
    }
}

/// The composition of two compatible fates.
pub open spec fn merge_fates(a: RowFate, b: RowFate) -> RowFate {
    if a is Untouched {
        b
    } else {
        a
    }
}

/// A group composes with the fold state when every row fate does.
pub open spec fn mutation_compat(ms: Seq<BlockMutationView>, bm: BlockMutationView) -> bool {
    forall|o: int| fates_compat(#[trigger] fate_of(ms, bm.block_id, o), bm.fate(o))
}

/// One operation of the fold: a newly written block joins the table, or
/// an existing block's rows are mutated.
#[derive(Debug)]
pub enum MutationOp {
    Append(Block),
    Mutate(BlockMutation),
}

/// The table-scoped fold state: one group per touched block id, and the
/// newly appended blocks.
#[derive(Debug)]
pub struct MutationAccumulator {
    pub mutations: Vec<BlockMutation>,
    pub appends: Vec<Block>,
}

impl MutationAccumulator {
    /// The grouped row mutations, as views.
    pub open spec fn mv(self) -> Seq<BlockMutationView> {
        self.mutations@.map_values(|m: BlockMutation| m@)
    }

    /// The appended blocks, as views.
    pub open spec fn av(self) -> Seq<BlockView> {
        self.appends@.map_values(|b: Block| b@)
    }

    /// The folded fate of row `o` of block `id`.
    pub open spec fn fate(self, id: BlockId, o: int) -> RowFate {
        fate_of(self.mv(), id, o)
    }

    /// Every group is reduced, its replacement rows have the table's
    /// width, and each touched block id is folded into at most one
    /// group.
    pub open spec fn wf(self, ncols: nat) -> bool {
        &&& forall|k: int|
            0 <= k < self.mv().len() ==> (#[trigger] self.mv()[k]).wf(ncols) && self.mv()[k].tidy()
        &&& forall|k1: int, k2: int|
            0 <= k1 < k2 < self.mv().len() ==> (#[trigger] self.mv()[k1]).block_id != (
            #[trigger] self.mv()[k2]).block_id
    }

    /// An empty fold.
    pub fn create() -> (r: Self)
        ensures
            r.mv().len() == 0,
            r.av().len() == 0,
            forall|id: BlockId, o: int| r.fate(id, o) is Untouched,
            forall|ncols: nat| r.wf(ncols),
    {
        let r = MutationAccumulator { mutations: Vec::new(), appends: Vec::new() };
        proof {
            assert(r.mv() =~= Seq::<BlockMutationView>::empty());
            assert(r.av() =~= Seq::<BlockView>::empty());
        }
        r
    }

    /// Folds one operation into the accumulated state.
    ///
    /// An append always succeeds and only extends the appended list.  A
    /// mutation succeeds exactly when it composes with what the fold
    /// already holds for its block: then deletions union and
    /// replacements land on so-far-untouched rows, and only that block's
    /// fates change, to the composition.  An incompatible mutation
    /// leaves the fold unchanged and reports `ConflictingOperation`.
    #[verifier::rlimit(60)]
    pub fn accumulate(&mut self, op: MutationOp, ncols: usize) -> (r: Result<(), MutationError>)
        requires
            old(self).wf(ncols as nat),
            op matches MutationOp::Mutate(bm) ==> bm@.wf(ncols as nat) && bm@.tidy(),
        ensures
            final(self).wf(ncols as nat),
            match op {
                MutationOp::Append(b) => {
                    &&& r is Ok
                    &&& final(self).av() == old(self).av().push(b@)
                    &&& final(self).mv() == old(self).mv()
                },
                MutationOp::Mutate(bm) => {
                    &&& r is Ok <==> mutation_compat(old(self).mv(), bm@)
                    &&& r is Ok ==> final(self).av() == old(self).av() && forall|id: BlockId, o: int|
                        #[trigger] final(self).fate(id, o) == if id == bm@.block_id {
                            merge_fates(old(self).fate(id, o), bm@.fate(o))
                        } else {
                            old(self).fate(id, o)
                        }
                    &&& r matches Err(e) ==> e == MutationError::ConflictingOperation
                        && final(self).mv() == old(self).mv()
                        && final(self).av() == old(self).av()
                },
            },
    {
        let ghost pre = self.mv();
        let ghost av0 = self.av();
        match op {
            MutationOp::Append(b) => {
                self.appends.push(b);
                proof {
                    assert(self.av() =~= old(self).av().push(self.appends@.last()@));
                    assert(self.mv() =~= pre);
                }
                Ok(())
            },
            MutationOp::Mutate(bm) => {
                let ghost bmv = bm@;
                match find_mutation_index(&self.mutations, bm.block_id) {
                    None => {
                        self.mutations.push(bm);
                        proof {
                            let post = self.mv();
                            assert(post =~= pre.push(bmv));
                            assert forall|o: int|
                                fates_compat(#[trigger] fate_of(pre, bmv.block_id, o), bmv.fate(o))
                                by {}
                            assert forall|id: BlockId, o: int|
                                #[trigger] fate_of(post, id, o) == if id == bmv.block_id {
                                    merge_fates(fate_of(pre, id, o), bmv.fate(o))
                                } else {
                                    fate_of(pre, id, o)
                                } by {
                                lemma_find_mutation_push(pre, bmv, id);
                            }
                            lemma_find_mutation_none_char(pre, bmv.block_id);
                            assert forall|k1: int, k2: int|
                                0 <= k1 < k2 < post.len() implies (#[trigger] post[k1]).block_id
                                != (#[trigger] post[k2]).block_id by {
                                if k2 < pre.len() {
                                    assert(post[k1] == pre[k1] && post[k2] == pre[k2]);
                                } else {
                                    assert(post[k1] == pre[k1] && post[k2] == bmv);
                                }
                            }
                            assert forall|k: int|
                                0 <= k < post.len() implies (#[trigger] post[k]).wf(ncols as nat)
                                && post[k].tidy() by {
                                if k < pre.len() {
                                    assert(post[k] == pre[k]);
                                } else {
                                    assert(post[k] == bmv);
                                }
                            }
                            assert(self.av() =~= old(self).av());
                        }
                        Ok(())
                    },
                    Some(ix) => {
                        let ghost entry_pre = pre[ix as int];
                        proof {
                            assert(bmv.wf(ncols as nat) && bmv.tidy());
                            assert(entry_pre == self.mutations@[ix as int]@);
                            assert forall|k: int|
                                0 <= k < ix implies (#[trigger] pre[k]).block_id != bmv.block_id
                                by {
                                assert(pre[k] == self.mutations@[k]@);
                            }
                            assert(entry_pre.block_id == bmv.block_id);
                        }
                        // Check compatibility before touching anything, so a
                        // failed fold leaves the state unchanged.
                        let mut k: usize = 0;
                        while k < bm.deleted.len()
                            invariant
                                op == MutationOp::Mutate(bm),
                                pre == self.mv(),
                                self.mv() == old(self).mv(),
                                self.av() == old(self).av(),
                                old(self).wf(ncols as nat),
                                av0 == self.av(),
                                forall|t: int|
                                    0 <= t < pre.len() ==> (#[trigger] pre[t]).wf(ncols as nat)
                                        && pre[t].tidy(),
                                bmv.wf(ncols as nat) && bmv.tidy(),
                                forall|kk: int|
                                    0 <= kk < ix ==> (#[trigger] pre[kk]).block_id
                                        != bmv.block_id,
                                bmv == bm@,
                                0 <= ix < self.mutations@.len(),
                                entry_pre == pre[ix as int],
                                entry_pre.block_id == bmv.block_id,
                                0 <= k <= bm.deleted@.len(),
                                forall|t: int|
                                    0 <= t < k ==> !(spec_deleted(
                                        entry_pre.deleted,
                                        #[trigger] bm.deleted@[t] as int,
                                    )) ==> find_replacement(
                                        entry_pre.replaced,
                                        bm.deleted@[t] as int,
                                    ) is None,
                            decreases bm.deleted@.len() - k,
                        {
                            let d = bm.deleted[k];
                            if !contains_offset(&self.mutations[ix].deleted, d)
                                && find_repl_index(&self.mutations[ix].replaced, d).is_some() {
                                proof {
                                    assert(spec_deleted(bmv.deleted, d as int));
                                    assert(bmv.fate(d as int) is Deleted);
                                    assert(entry_pre.fate(d as int) is Replaced);
                                    lemma_fate_at_first(pre, ix as int);
                                    assert(!fates_compat(
                                        fate_of(pre, bmv.block_id, d as int),
                                        bmv.fate(d as int),
                                    ));
                                }
                                return Err(MutationError::ConflictingOperation);
                            }
                            k = k + 1;
                        }
                        let mut l: usize = 0;
                        while l < bm.replaced.len()
                            invariant
                                op == MutationOp::Mutate(bm),
                                pre == self.mv(),
                                self.mv() == old(self).mv(),
                                self.av() == old(self).av(),
                                old(self).wf(ncols as nat),
                                forall|t: int|
                                    0 <= t < bm.deleted@.len() ==> !(spec_deleted(
                                        entry_pre.deleted,
                                        #[trigger] bm.deleted@[t] as int,
                                    )) ==> find_replacement(
                                        entry_pre.replaced,
                                        bm.deleted@[t] as int,
                                    ) is None,
                                av0 == self.av(),
                                forall|t: int|
                                    0 <= t < pre.len() ==> (#[trigger] pre[t]).wf(ncols as nat)
                                        && pre[t].tidy(),
                                bmv.wf(ncols as nat) && bmv.tidy(),
                                forall|kk: int|
                                    0 <= kk < ix ==> (#[trigger] pre[kk]).block_id
                                        != bmv.block_id,
                                bmv == bm@,
                                0 <= ix < self.mutations@.len(),
                                entry_pre == pre[ix as int],
                                entry_pre.block_id == bmv.block_id,
                                0 <= l <= bm.replaced@.len(),
                                forall|t: int|
                                    0 <= t < l ==> !spec_deleted(
                                        entry_pre.deleted,
                                        (#[trigger] bm.replaced@[t]@).offset as int,
                                    ) && find_replacement(
                                        entry_pre.replaced,
                                        bm.replaced@[t]@.offset as int,
                                    ) is None,
                            decreases bm.replaced@.len() - l,
                        {
                            let o = bm.replaced[l].offset;
                            if contains_offset(&self.mutations[ix].deleted, o)
                                || find_repl_index(&self.mutations[ix].replaced, o).is_some() {
                                proof {
                                    assert(bmv.replaced[l as int] == bm.replaced@[l as int]@);
                                    lemma_replaced_entry_fate(bmv, l as int);
                                    assert(bmv.fate(o as int) is Replaced);
                                    assert(!(entry_pre.fate(o as int) is Untouched));
                                    lemma_fate_at_first(pre, ix as int);
                                    assert(!fates_compat(
                                        fate_of(pre, bmv.block_id, o as int),
                                        bmv.fate(o as int),
                                    ));
                                }
                                return Err(MutationError::ConflictingOperation);
                            }
                            l = l + 1;
                        }
                        proof {
                            lemma_fate_at_first(pre, ix as int);
                            assert(self.mutations@[ix as int]@ == entry_pre);
                            assert forall|o: int|
                                fates_compat((#[trigger] entry_pre.fate(o)), bmv.fate(o)) by {
                                lemma_compat_from_checks(entry_pre, bmv, o);
                            }
                            assert forall|o: int|
                                fates_compat(
                                    #[trigger] fate_of(pre, bmv.block_id, o),
                                    bmv.fate(o),
                                ) by {
                                assert(fate_of(pre, bmv.block_id, o) == entry_pre.fate(o));
                            }
                        }
                        let entry = &mut self.mutations[ix];
                        merge_into_entry(entry, &bm, Ghost(ncols as nat));
                        proof {
                            let post = self.mv();
                            let entry_post = self.mutations@[ix as int]@;
                            assert(post =~= pre.update(ix as int, entry_post));
                            lemma_find_mutation_at(post, bmv.block_id, ix as int);
                            assert forall|id: BlockId, o: int|
                                #[trigger] fate_of(post, id, o) == if id == bmv.block_id {
                                    merge_fates(fate_of(pre, id, o), bmv.fate(o))
                                } else {
                                    fate_of(pre, id, o)
                                } by {
                                if id != bmv.block_id {
                                    lemma_find_mutation_update_other(
                                        pre,
                                        ix as int,
                                        entry_post,
                                        id,
                                    );
                                }
                            }
                            assert forall|k1: int, k2: int|
                                0 <= k1 < k2 < post.len() implies (#[trigger] post[k1]).block_id
                                != (#[trigger] post[k2]).block_id by {
                                assert(post[k1].block_id == pre[k1].block_id);
                                assert(post[k2].block_id == pre[k2].block_id);
                            }
                            assert forall|t: int|
                                0 <= t < post.len() implies (#[trigger] post[t]).wf(ncols as nat)
                                && post[t].tidy() by {
                                if t != ix {
                                    assert(post[t] == pre[t]);
                                }
                            }
                            assert(self.av() =~= old(self).av());
                        }
                        Ok(())
                    },
                }
            },
        }
    }
}

/// At the first group recorded for a block id, the folded fate is that
/// group's fate.
proof fn lemma_fate_at_first(ms: Seq<BlockMutationView>, ix: int)
    requires
        0 <= ix < ms.len(),
        forall|k: int| 0 <= k < ix ==> (#[trigger] ms[k]).block_id != ms[ix].block_id,
    ensures
        forall|o: int| #[trigger] fate_of(ms, ms[ix].block_id, o) == ms[ix].fate(o),
{
    lemma_find_mutation_at(ms, ms[ix].block_id, ix);
}

/// In a reduced group, each replacement entry is the one its offset finds.
proof fn lemma_replaced_entry_fate(bm: BlockMutationView, l: int)
    requires
        bm.tidy(),
        0 <= l < bm.replaced.len(),
    ensures
        bm.fate(bm.replaced[l].offset as int) == RowFate::Replaced(bm.replaced[l].row),
{
    let o = bm.replaced[l].offset as int;
    assert(forall|k: int| 0 <= k < l ==> (#[trigger] bm.replaced[k]).offset != o);
    lemma_find_replacement_at(bm.replaced, o, l);
}

/// The pairwise checks of the fold cover every row fate.
proof fn lemma_compat_from_checks(entry: BlockMutationView, bm: BlockMutationView, o: int)
    requires
        bm.tidy(),
        forall|t: int|
            0 <= t < bm.deleted.len() ==> !(spec_deleted(
                entry.deleted,
                #[trigger] bm.deleted[t] as int,
            )) ==> find_replacement(entry.replaced, bm.deleted[t] as int) is None,
        forall|t: int|
            0 <= t < bm.replaced.len() ==> !spec_deleted(
                entry.deleted,
                (#[trigger] bm.replaced[t]).offset as int,
            ) && find_replacement(entry.replaced, bm.replaced[t].offset as int) is None,
    ensures
        fates_compat(entry.fate(o), bm.fate(o)),
{
    match bm.fate(o) {
        RowFate::Untouched => {},
        RowFate::Deleted => {
            assert(spec_deleted(bm.deleted, o));
            let t = choose|t: int| 0 <= t < bm.deleted.len() && bm.deleted[t] == o;
            assert(bm.deleted[t] as int == o);
            if !spec_deleted(entry.deleted, o) {
                assert(find_replacement(entry.replaced, o) is None);
            }
        },
        RowFate::Replaced(r) => {
            assert(find_replacement(bm.replaced, o) == Some(r));
            lemma_find_replacement_some_char(bm.replaced, o);
            let t = choose|t: int| 0 <= t < bm.replaced.len() && bm.replaced[t].offset == o;
            assert((bm.replaced[t]).offset as int == o);
        },
    }
}

/// Merges a compatible group into the fold's entry for the same block:
/// deletions union, replacements land on untouched rows, every other row
/// fate is unchanged.
fn merge_into_entry(entry: &mut BlockMutation, bm: &BlockMutation, Ghost(ncols): Ghost<nat>)
    requires
        old(entry)@.block_id == bm@.block_id,
        old(entry)@.wf(ncols),
        old(entry)@.tidy(),
        bm@.wf(ncols),
        bm@.tidy(),
        forall|o: int| fates_compat((#[trigger] old(entry)@.fate(o)), bm@.fate(o)),
    ensures
        final(entry)@.block_id == old(entry)@.block_id,
        final(entry)@.wf(ncols),
        final(entry)@.tidy(),
        forall|o: int| #[trigger] final(entry)@.fate(o) == merge_fates(
            old(entry)@.fate(o),
            bm@.fate(o),
        ),
{
    let ghost base = old(entry)@;
    let ghost bmv = bm@;
    proof {
        assert(bmv.deleted.take(0) =~= Seq::<u64>::empty());
        assert forall|o: int| #[trigger] entry@.fate(o) == merge_fates(
            base.fate(o),
            (BlockMutationView {
                block_id: bmv.block_id,
                deleted: bmv.deleted.take(0),
                replaced: Seq::empty(),
            }).fate(o),
        ) by {
            assert(find_replacement(Seq::<RowReplacementView>::empty(), o) is None);
            assert(!spec_deleted(bmv.deleted.take(0), o));
        }
    }
    let mut k: usize = 0;
    while k < bm.deleted.len()
        invariant
            bmv == bm@,
            base.block_id == bmv.block_id,
            base.wf(ncols),
            base.tidy(),
            bmv.wf(ncols),
            bmv.tidy(),
            forall|o: int| fates_compat((#[trigger] base.fate(o)), bmv.fate(o)),
            0 <= k <= bm.deleted@.len(),
            entry@.block_id == base.block_id,
            entry@.replaced == base.replaced,
            entry@.wf(ncols),
            entry@.tidy(),
            forall|o: int| #[trigger] entry@.fate(o) == merge_fates(
                base.fate(o),
                (BlockMutationView {
                    block_id: bmv.block_id,
                    deleted: bmv.deleted.take(k as int),
                    replaced: Seq::empty(),
                }).fate(o),
            ),
        decreases bm.deleted@.len() - k,
    {
        let ghost entry_old = entry@;
        let d = bm.deleted[k];
        entry.deleted.push(d);
        proof {
            let partial_old = BlockMutationView {
                block_id: bmv.block_id,
                deleted: bmv.deleted.take(k as int),
                replaced: Seq::empty(),
            };
            let partial_new = BlockMutationView {
                block_id: bmv.block_id,
                deleted: bmv.deleted.take(k + 1),
                replaced: Seq::empty(),
            };
            assert(bmv.deleted.take(k + 1) =~= bmv.deleted.take(k as int).push(d));
            assert(spec_deleted(bmv.deleted, d as int));
            assert forall|o: int| #[trigger] entry@.fate(o) == merge_fates(
                base.fate(o),
                partial_new.fate(o),
            ) by {
                assert(entry_old.fate(o) == merge_fates(base.fate(o), partial_old.fate(o)));
                assert(find_replacement(Seq::<RowReplacementView>::empty(), o) is None);
                lemma_spec_deleted_push(entry_old.deleted, d, o);
                lemma_spec_deleted_push(bmv.deleted.take(k as int), d, o);
                if o == d as int {
                    assert(bmv.fate(o) is Deleted);
                    assert(fates_compat(base.fate(o), bmv.fate(o)));
                }
            }
            assert forall|i: int|
                0 <= i < entry@.replaced.len() implies !spec_deleted(
                entry@.deleted,
                (#[trigger] entry@.replaced[i]).offset as int,
            ) by {
                lemma_spec_deleted_push(
                    entry_old.deleted,
                    d,
                    entry@.replaced[i].offset as int,
                );
                if entry@.replaced[i].offset == d {
                    assert(entry_old.fate(d as int) == RowFate::Replaced(
                        entry@.replaced[i].row,
                    )) by {
                        lemma_replaced_entry_fate(entry_old, i);
                    }
                    assert(bmv.fate(d as int) is Deleted);
                    assert(merge_fates(base.fate(d as int), partial_old.fate(d as int))
                        == entry_old.fate(d as int));
                    assert(false);
                }
            }
        }
        k = k + 1;
    }
    proof {
        assert(bmv.deleted.take(bm.deleted@.len() as int) =~= bmv.deleted);
        assert(bmv.replaced.take(0) =~= Seq::<RowReplacementView>::empty());
        assert forall|o: int| #[trigger] entry@.fate(o) == merge_fates(
            base.fate(o),
            (BlockMutationView {
                block_id: bmv.block_id,
                deleted: bmv.deleted,
                replaced: bmv.replaced.take(0),
            }).fate(o),
        ) by {
            assert(entry@.fate(o) == merge_fates(
                base.fate(o),
                (BlockMutationView {
                    block_id: bmv.block_id,
                    deleted: bmv.deleted,
                    replaced: Seq::empty(),
                }).fate(o),
            ));
        }
    }
    let mut l: usize = 0;
    while l < bm.replaced.len()
        invariant
            bmv == bm@,
            base.block_id == bmv.block_id,
            base.wf(ncols),
            base.tidy(),
            bmv.wf(ncols),
            bmv.tidy(),
            forall|o: int| fates_compat((#[trigger] base.fate(o)), bmv.fate(o)),
            0 <= l <= bm.replaced@.len(),
            entry@.block_id == base.block_id,
            entry@.wf(ncols),
            entry@.tidy(),
            forall|o: int| #[trigger] entry@.fate(o) == merge_fates(
                base.fate(o),
                (BlockMutationView {
                    block_id: bmv.block_id,
                    deleted: bmv.deleted,
                    replaced: bmv.replaced.take(l as int),
                }).fate(o),
            ),
        decreases bm.replaced@.len() - l,
    {
        let ghost entry_old = entry@;
        let o = bm.replaced[l].offset;
        let row = crate::block::copy_row(&bm.replaced[l].row);
        entry.replaced.push(RowReplacement { offset: o, row });
        proof {
            let x = entry@.replaced.last();
            assert(x.offset == o && x.row == bmv.replaced[l as int].row);
            let partial_old = BlockMutationView {
                block_id: bmv.block_id,
                deleted: bmv.deleted,
                replaced: bmv.replaced.take(l as int),
            };
            let partial_new = BlockMutationView {
                block_id: bmv.block_id,
                deleted: bmv.deleted,
                replaced: bmv.replaced.take(l + 1),
            };
            assert(entry@.replaced =~= entry_old.replaced.push(x));
            assert(bmv.replaced.take(l + 1) =~= bmv.replaced.take(l as int).push(
                bmv.replaced[l as int],
            ));
            lemma_replaced_entry_fate(bmv, l as int);
            assert(bmv.fate(o as int) == RowFate::Replaced(x.row));
            assert(fates_compat(base.fate(o as int), bmv.fate(o as int)));
            assert(base.fate(o as int) is Untouched);
            assert(merge_fates(base.fate(o as int), partial_old.fate(o as int)) == entry_old.fate(
                o as int,
            ));
            assert(partial_old.fate(o as int) is Untouched) by {
                if spec_deleted(bmv.deleted, o as int) {
                    assert(bmv.fate(o as int) is Deleted);
                }
                if find_replacement(bmv.replaced.take(l as int), o as int) is Some {
                    lemma_find_replacement_some_char(bmv.replaced.take(l as int), o as int);
                    let t = choose|t: int|
                        0 <= t < l && bmv.replaced.take(l as int)[t].offset == o;
                    assert(bmv.replaced[t].offset == bmv.replaced[l as int].offset);
                }
            }
            assert(entry_old.fate(o as int) is Untouched);
            assert(!spec_deleted(entry_old.deleted, o as int));
            assert(find_replacement(entry_old.replaced, o as int) is None);
            lemma_find_replacement_none_char(entry_old.replaced, o as int);
            assert forall|oo: int| #[trigger] entry@.fate(oo) == merge_fates(
                base.fate(oo),
                partial_new.fate(oo),
            ) by {
                assert(entry_old.fate(oo) == merge_fates(base.fate(oo), partial_old.fate(oo)));
                lemma_find_replacement_push(entry_old.replaced, x, oo);
                lemma_find_replacement_push(bmv.replaced.take(l as int), bmv.replaced[l as int], oo);
            }
            assert forall|i: int, j: int|
                0 <= i < j < entry@.replaced.len() implies (#[trigger] entry@.replaced[i]).offset
                != (#[trigger] entry@.replaced[j]).offset by {
                if j == entry@.replaced.len() - 1 {
                    assert(entry@.replaced[i] == entry_old.replaced[i]);
                }
            }
            assert forall|i: int|
                0 <= i < entry@.replaced.len() implies !spec_deleted(
                entry@.deleted,
                (#[trigger] entry@.replaced[i]).offset as int,
            ) by {
                if i < entry_old.replaced.len() {
                    assert(entry@.replaced[i] == entry_old.replaced[i]);
                }
            }
        }
        l = l + 1;
    }
    proof {
        assert(bmv.replaced.take(bm.replaced@.len() as int) =~= bmv.replaced);
        assert forall|o: int| #[trigger] entry@.fate(o) == merge_fates(
            base.fate(o),
            bmv.fate(o),
        ) by {
            let partial = BlockMutationView {
                block_id: bmv.block_id,
                deleted: bmv.deleted,
                replaced: bmv.replaced.take(bm.replaced@.len() as int),
            };
            assert(partial == bmv);
        }
    }
}

/// A deletion offset list concatenation deletes the union.
pub proof fn lemma_spec_deleted_concat(d1: Seq<u64>, d2: Seq<u64>, o: int)
    ensures
        spec_deleted(d1 + d2, o) == (spec_deleted(d1, o) || spec_deleted(d2, o)),
{
    if spec_deleted(d1 + d2, o) {
        let i = choose|i: int| 0 <= i < (d1 + d2).len() && (d1 + d2)[i] == o;
        if i < d1.len() {
            assert(d1[i] == o);
        } else {
            assert(d2[i - d1.len()] == o);
        }
    }
    if spec_deleted(d1, o) {
        let i = choose|i: int| 0 <= i < d1.len() && d1[i] == o;
        assert((d1 + d2)[i] == o);
    }
    if spec_deleted(d2, o) {
        let i = choose|i: int| 0 <= i < d2.len() && d2[i] == o;
        assert((d1 + d2)[d1.len() + i] == o);
    }
}

/// A group that only deletes, as a view.
pub open spec fn delete_group(block: BlockId, deleted: Seq<u64>) -> BlockMutationView {
    BlockMutationView { block_id: block, deleted, replaced: Seq::empty() }
}

/// No lost updates: when two partitions independently delete row subsets
/// of the same block, the two groups always compose, and the folded
/// group's fates — hence the rows surviving in the block operation the
/// delta holds for that block — are those of deleting the union of both
/// subsets.
pub proof fn lemma_no_lost_updates(
    rows: Seq<Seq<Datum>>,
    block: BlockId,
    d1: Seq<u64>,
    d2: Seq<u64>,
    merged: BlockMutationView,
)
    requires
        forall|o: int|
            #[trigger] merged.fate(o) == merge_fates(
                delete_group(block, d1).fate(o),
                delete_group(block, d2).fate(o),
            ),
    ensures
        forall|o: int|
            fates_compat(#[trigger] delete_group(block, d1).fate(o), delete_group(block, d2).fate(o)),
        forall|o: int| #[trigger] merged.fate(o) == delete_group(block, d1 + d2).fate(o),
        surviving_rows(rows, merged) == surviving_rows(rows, delete_group(block, d1 + d2)),
{
    assert forall|o: int|
        fates_compat(
            #[trigger] delete_group(block, d1).fate(o),
            delete_group(block, d2).fate(o),
        ) by {
        assert(find_replacement(Seq::<RowReplacementView>::empty(), o) is None);
    }
    assert forall|o: int| #[trigger] merged.fate(o) == delete_group(block, d1 + d2).fate(o) by {
        assert(find_replacement(Seq::<RowReplacementView>::empty(), o) is None);
        lemma_spec_deleted_concat(d1, d2, o);
    }
    crate::aggregator::lemma_surviving_fate_congruence(rows, merged, delete_group(block, d1 + d2));
}

/// The fate map after folding one more group: only that group's block
/// changes, to the composition of the fates.
pub open spec fn fold_step(
    f: spec_fn(BlockId, int) -> RowFate,
    m: BlockMutationView,
) -> spec_fn(BlockId, int) -> RowFate {
    |id: BlockId, o: int|
        if id == m.block_id {
            merge_fates(f(id, o), m.fate(o))
        } else {
            f(id, o)
        }
}

/// Over groups touching distinct blocks the fold is commutative: either
/// arrival order leaves every row of every block with the same fate.
/// Associativity holds for the same reason: each group only rewrites its
/// own block's entry of the fate map.
pub proof fn lemma_fold_commutes(
    f: spec_fn(BlockId, int) -> RowFate,
    m1: BlockMutationView,
    m2: BlockMutationView,
    id: BlockId,
    o: int,
)
    requires
        m1.block_id != m2.block_id,
    ensures
        fold_step(fold_step(f, m1), m2)(id, o) == fold_step(fold_step(f, m2), m1)(id, o),
{
}

/// The single point that receives block-level operations and appended
/// blocks from all partitions and folds them, through the accumulator,
/// into one table-scoped mutation log.
#[derive(Debug)]
pub struct TableMutationAggregator {
    pub acc: MutationAccumulator,
}

impl TableMutationAggregator {
    /// An empty table-level fold.
    pub fn create() -> (r: Self)
        ensures
            r.acc.mv().len() == 0,
            r.acc.av().len() == 0,
            forall|id: BlockId, o: int| r.acc.fate(id, o) is Untouched,
            forall|ncols: nat| r.acc.wf(ncols),
    {
        TableMutationAggregator { acc: MutationAccumulator::create() }
    }

    /// Folds one partition-emitted operation; see
    /// [`MutationAccumulator::accumulate`] for the exact outcome.
    #[verifier::rlimit(60)]
    pub fn add_op(&mut self, op: MutationOp, ncols: usize) -> (r: Result<(), MutationError>)
        requires
            old(self).acc.wf(ncols as nat),
            op matches MutationOp::Mutate(bm) ==> bm@.wf(ncols as nat) && bm@.tidy(),
        ensures
            final(self).acc.wf(ncols as nat),
            match op {
                MutationOp::Append(b) => {
                    &&& r is Ok
                    &&& final(self).acc.av() == old(self).acc.av().push(b@)
                    &&& final(self).acc.mv() == old(self).acc.mv()
                },
                MutationOp::Mutate(bm) => {
                    &&& r is Ok <==> mutation_compat(old(self).acc.mv(), bm@)
                    &&& r is Ok ==> final(self).acc.av() == old(self).acc.av() && forall|
                        id: BlockId,
                        o: int,
                    |
                        #[trigger] final(self).acc.fate(id, o) == fold_step(
                            |id2: BlockId, o2: int| old(self).acc.fate(id2, o2),
                            bm@,
                        )(id, o)
                    &&& r matches Err(e) ==> e == MutationError::ConflictingOperation
                        && final(self).acc.mv() == old(self).acc.mv()
                        && final(self).acc.av() == old(self).acc.av()
                },
            },
    {
        self.acc.accumulate(op, ncols)
    }

    /// Closes the fold into the retry state of one commit attempt:
    /// the grouped mutations, the appended blocks, and the writer
    /// identity under which replacement blocks will be numbered, starting
    /// at `next_seq`.
    pub fn into_log(self, writer: u64, next_seq: u64) -> (r: MutationLog)
        ensures
            r.mutations@.map_values(|m: BlockMutation| m@) == self.acc.mv(),
            r.appends@.map_values(|b: Block| b@) == self.acc.av(),
            r.writer == writer,
            r.next_seq == next_seq,
    {
        MutationLog {
            mutations: self.acc.mutations,
            appends: self.acc.appends,
            writer,
            next_seq,
        }
    }
}

/// The bookkeeping that survives a commit conflict: everything needed to
/// re-derive a delta against a newer base snapshot without re-scanning
/// the source data.
#[derive(Debug)]
pub struct MutationLog {
    /// Row mutations, one group per touched block id.
    pub mutations: Vec<BlockMutation>,
    /// Newly written blocks to append.
    pub appends: Vec<Block>,
    /// The writer identity of this mutation attempt.
    pub writer: u64,
    /// The next block number to hand to a rewritten block.
    pub next_seq: u64,
}

} // verus!
