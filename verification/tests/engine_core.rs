use fuse_mutation::accumulator::{MutationAccumulator, MutationOp};
use fuse_mutation::aggregator::{
    apply_block_mutation, BlockMutation, MergeIntoOperationAggregator, MutationIntent,
    RowReplacement,
};
use fuse_mutation::append::AppendTransform;
use fuse_mutation::block::{make_block, merge_stats, overlaps, Block, BlockId, ColumnPredicate};
use fuse_mutation::broadcast::{BroadcastProcessor, Partition};
use fuse_mutation::datum::{datum_eq, row_eq, Datum};
use fuse_mutation::errors::MutationError;
use fuse_mutation::matcher::{match_block, MatchDecision, OnConflictField};

fn int_row(vals: &[i64]) -> Vec<Datum> {
    vals.iter().map(|v| Datum::Int(*v)).collect()
}

fn block_of(writer: u64, seq: u64, rows: Vec<Vec<Datum>>, ncols: usize) -> Block {
    make_block(BlockId { writer, seq }, rows, ncols)
}

#[test]
fn datum_and_row_equality() {
    assert!(datum_eq(&Datum::Null, &Datum::Null));
    assert!(datum_eq(&Datum::Int(3), &Datum::Int(3)));
    assert!(!datum_eq(&Datum::Int(3), &Datum::Null));
    assert!(row_eq(&int_row(&[1, 2]), &int_row(&[1, 2])));
    assert!(!row_eq(&int_row(&[1, 2]), &int_row(&[1, 3])));
    assert!(!row_eq(&int_row(&[1, 2]), &int_row(&[1])));
}

#[test]
fn block_statistics_are_exact() {
    let rows = vec![
        vec![Datum::Int(5), Datum::Null],
        vec![Datum::Int(-3), Datum::Int(40)],
        vec![Datum::Int(12), Datum::Int(7)],
    ];
    let b = block_of(1, 0, rows, 2);
    assert_eq!(b.stats.row_count, 3);
    assert_eq!(b.stats.byte_size, 8 * 2 * 3);
    assert_eq!(b.stats.cols[0].min, Datum::Int(-3));
    assert_eq!(b.stats.cols[0].max, Datum::Int(12));
    assert_eq!(b.stats.cols[0].null_count, 0);
    assert_eq!(b.stats.cols[1].min, Datum::Int(7));
    assert_eq!(b.stats.cols[1].max, Datum::Int(40));
    assert_eq!(b.stats.cols[1].null_count, 1);
}

#[test]
fn merged_statistics_cover_all_blocks() {
    let b1 = block_of(1, 0, vec![int_row(&[1]), int_row(&[9])], 1);
    let b2 = block_of(1, 1, vec![vec![Datum::Null], int_row(&[-4])], 1);
    let s = merge_stats(&vec![b1, b2], 1);
    assert_eq!(s.row_count, 4);
    assert_eq!(s.cols[0].min, Datum::Int(-4));
    assert_eq!(s.cols[0].max, Datum::Int(9));
    assert_eq!(s.cols[0].null_count, 1);
}

#[test]
fn pruning_answers_follow_the_statistics() {
    let b = block_of(1, 0, vec![int_row(&[10, 1]), int_row(&[20, 2])], 2);
    assert!(overlaps(&b, ColumnPredicate { column: 0, low: 15, high: 25 }, 2));
    assert!(!overlaps(&b, ColumnPredicate { column: 0, low: 21, high: 99 }, 2));
    assert!(!overlaps(&b, ColumnPredicate { column: 0, low: 0, high: 9 }, 2));
    assert!(!overlaps(&b, ColumnPredicate { column: 5, low: 0, high: 100 }, 2));
}

#[test]
fn matcher_finds_the_single_matching_row() {
    let target = block_of(3, 0, vec![int_row(&[1, 10]), int_row(&[2, 20]), int_row(&[3, 30])], 2);
    let key = vec![OnConflictField { field_index: 0 }];
    let source = vec![int_row(&[2, 99]), int_row(&[7, 77])];
    let ds = match_block(&key, &source, &target).unwrap();
    assert_eq!(
        ds[0],
        MatchDecision::Matched { block: BlockId { writer: 3, seq: 0 }, offset: 1 }
    );
    assert_eq!(ds[1], MatchDecision::NotMatched);
}

#[test]
fn matcher_rejects_duplicate_target_keys() {
    // Two target rows carry key 2: matching must fail, not pick one.
    let target = block_of(3, 0, vec![int_row(&[2, 10]), int_row(&[2, 20])], 2);
    let key = vec![OnConflictField { field_index: 0 }];
    let source = vec![int_row(&[2, 99])];
    assert_eq!(match_block(&key, &source, &target), Err(MutationError::MultipleMatch));
}

#[test]
fn matcher_rejects_two_source_rows_with_one_matched_key() {
    let target = block_of(3, 0, vec![int_row(&[2, 10])], 2);
    let key = vec![OnConflictField { field_index: 0 }];
    let source = vec![int_row(&[2, 99]), int_row(&[2, 98])];
    assert_eq!(match_block(&key, &source, &target), Err(MutationError::MultipleMatch));
}

#[test]
fn aggregator_groups_intents_and_rejects_second_touch() {
    let bid = BlockId { writer: 1, seq: 0 };
    let mut agg = MergeIntoOperationAggregator::create(vec![bid]);
    agg.accumulate(MutationIntent::Delete { block: bid, offset: 0 }, 2).unwrap();
    agg.accumulate(
        MutationIntent::Replace { block: bid, offset: 1, row: int_row(&[9, 9]) },
        2,
    )
    .unwrap();
    // A second intent for row 0 is a partitioning bug.
    let r = agg.accumulate(MutationIntent::Delete { block: bid, offset: 0 }, 2);
    assert_eq!(r, Err(MutationError::ConflictingOperation));
    let ms = agg.finish();
    assert_eq!(ms.len(), 1);
    assert_eq!(ms[0].deleted, vec![0]);
    assert_eq!(ms[0].replaced.len(), 1);
}

#[test]
fn aggregator_rejects_foreign_blocks() {
    let owned = BlockId { writer: 1, seq: 0 };
    let foreign = BlockId { writer: 1, seq: 5 };
    let mut agg = MergeIntoOperationAggregator::create(vec![owned]);
    let r = agg.accumulate(MutationIntent::Delete { block: foreign, offset: 0 }, 2);
    assert_eq!(r, Err(MutationError::ConflictingOperation));
}

#[test]
fn block_rewrite_keeps_untouched_rows_in_order() {
    let b = block_of(1, 0, vec![int_row(&[0]), int_row(&[1]), int_row(&[2]), int_row(&[3])], 1);
    let bm = BlockMutation {
        block_id: b.id,
        deleted: vec![1],
        replaced: vec![RowReplacement { offset: 2, row: int_row(&[99]) }],
    };
    let nb = apply_block_mutation(&b, &bm, BlockId { writer: 7, seq: 0 }, 1).unwrap();
    assert_eq!(nb.id, BlockId { writer: 7, seq: 0 });
    assert_eq!(nb.rows, vec![int_row(&[0]), int_row(&[99]), int_row(&[3])]);
    assert_eq!(nb.stats.row_count, 3);
}

#[test]
fn block_rewrite_deleting_every_row_removes_the_block() {
    let b = block_of(1, 0, vec![int_row(&[0]), int_row(&[1])], 1);
    let bm = BlockMutation { block_id: b.id, deleted: vec![0, 1], replaced: vec![] };
    assert!(apply_block_mutation(&b, &bm, BlockId { writer: 7, seq: 0 }, 1).is_none());
}

#[test]
fn fold_unions_independent_deletions_of_one_block() {
    // Two partitions delete disjoint row subsets of block B; the folded
    // group holds the union of both deletions.
    let bid = BlockId { writer: 1, seq: 0 };
    let mut acc = MutationAccumulator::create();
    acc.accumulate(
        MutationOp::Mutate(BlockMutation { block_id: bid, deleted: vec![0, 2], replaced: vec![] }),
        1,
    )
    .unwrap();
    acc.accumulate(
        MutationOp::Mutate(BlockMutation { block_id: bid, deleted: vec![3], replaced: vec![] }),
        1,
    )
    .unwrap();
    assert_eq!(acc.mutations.len(), 1);
    let b = block_of(1, 0, (0..5).map(|v| int_row(&[v])).collect(), 1);
    let nb = apply_block_mutation(&b, &acc.mutations[0], BlockId { writer: 9, seq: 0 }, 1)
        .unwrap();
    assert_eq!(nb.rows, vec![int_row(&[1]), int_row(&[4])]);
}

#[test]
fn fold_accepts_overlapping_deletions() {
    let bid = BlockId { writer: 1, seq: 0 };
    let mut acc = MutationAccumulator::create();
    acc.accumulate(
        MutationOp::Mutate(BlockMutation { block_id: bid, deleted: vec![0, 1], replaced: vec![] }),
        1,
    )
    .unwrap();
    acc.accumulate(
        MutationOp::Mutate(BlockMutation { block_id: bid, deleted: vec![1, 2], replaced: vec![] }),
        1,
    )
    .unwrap();
    let b = block_of(1, 0, (0..4).map(|v| int_row(&[v])).collect(), 1);
    let nb = apply_block_mutation(&b, &acc.mutations[0], BlockId { writer: 9, seq: 0 }, 1)
        .unwrap();
    assert_eq!(nb.rows, vec![int_row(&[3])]);
}

#[test]
fn fold_rejects_replacing_a_deleted_row() {
    let bid = BlockId { writer: 1, seq: 0 };
    let mut acc = MutationAccumulator::create();
    acc.accumulate(
        MutationOp::Mutate(BlockMutation { block_id: bid, deleted: vec![1], replaced: vec![] }),
        1,
    )
    .unwrap();
    let r = acc.accumulate(
        MutationOp::Mutate(BlockMutation {
            block_id: bid,
            deleted: vec![],
            replaced: vec![RowReplacement { offset: 1, row: int_row(&[5]) }],
        }),
        1,
    );
    assert_eq!(r, Err(MutationError::ConflictingOperation));
}

#[test]
fn append_transform_chunks_rows_into_full_blocks() {
    let mut t = AppendTransform::create(4, 10, 4, 1);
    let rows: Vec<Vec<Datum>> = (0..10).map(|v| int_row(&[v])).collect();
    let blocks = t.transform(&rows);
    assert_eq!(blocks.len(), 3);
    assert_eq!(blocks[0].rows.len(), 4);
    assert_eq!(blocks[1].rows.len(), 4);
    assert_eq!(blocks[2].rows.len(), 2);
    assert_eq!(blocks[0].id, BlockId { writer: 4, seq: 10 });
    assert_eq!(blocks[2].id, BlockId { writer: 4, seq: 12 });
    assert_eq!(blocks[2].rows, vec![int_row(&[8]), int_row(&[9])]);
    assert_eq!(t.next_seq, 13);
}

#[test]
fn broadcast_routes_keys_to_candidate_partitions_in_order() {
    // Partition 0 holds values 0..=9, partition 1 holds 100..=109.
    let p0 = Partition { blocks: vec![block_of(1, 0, (0..10).map(|v| int_row(&[v])).collect(), 1)] };
    let p1 = Partition {
        blocks: vec![block_of(1, 1, (100..110).map(|v| int_row(&[v])).collect(), 1)],
    };
    let bp = BroadcastProcessor::create(vec![OnConflictField { field_index: 0 }]);
    let keys = vec![int_row(&[5]), int_row(&[105]), int_row(&[7]), int_row(&[500])];
    let routed = bp.route(&keys, &vec![p0, p1]);
    assert_eq!(routed[0], vec![int_row(&[5]), int_row(&[7])]);
    assert_eq!(routed[1], vec![int_row(&[105])]);
}
