use fuse_mutation::accumulator::{MutationLog, MutationOp, TableMutationAggregator};
use fuse_mutation::aggregator::MutationIntent;
use fuse_mutation::append::AppendTransform;
use fuse_mutation::block::BlockId;
use fuse_mutation::commit::{
    delta_metrics, execute_mutation, finalize, BlockOp, CommitSink, CommitState,
};
use fuse_mutation::datum::Datum;
use fuse_mutation::errors::MutationError;
use fuse_mutation::matcher::{match_block, MatchDecision, OnConflictField};
use fuse_mutation::snapshot::{new_table, TablePointer, TableSnapshot};

fn int_row(vals: &[i64]) -> Vec<Datum> {
    vals.iter().map(|v| Datum::Int(*v)).collect()
}

fn append_only_log(writer: u64, rows: Vec<Vec<Datum>>, cap: usize, ncols: usize) -> MutationLog {
    let mut t = AppendTransform::create(writer, 0, cap, ncols);
    let blocks = t.transform(&rows);
    let mut agg = TableMutationAggregator::create();
    for b in blocks {
        agg.add_op(MutationOp::Append(b), ncols).unwrap();
    }
    let next = t.next_seq;
    agg.into_log(writer, next)
}

fn table_of(rows: Vec<Vec<Datum>>, cap: usize, ncols: usize) -> TablePointer {
    let mut pointer = TablePointer::create(new_table(ncols));
    let log = append_only_log(1, rows, cap, ncols);
    execute_mutation(&mut pointer, &log, ncols).unwrap();
    pointer
}

fn commit_through_sink(
    pointer: &mut TablePointer,
    log: MutationLog,
    max_retries: u64,
    ncols: usize,
) -> Result<TableSnapshot, MutationError> {
    let mut sink = CommitSink::create(pointer.read_current().clone(), log, max_retries, ncols);
    loop {
        assert_eq!(sink.state, CommitState::Building);
        sink.build();
        if sink.state == CommitState::Aborted {
            return Err(sink.failure.unwrap());
        }
        assert_eq!(sink.state, CommitState::Writing);
        // The model keeps block content inside the snapshot, so the
        // physical write always succeeds here.
        sink.write_done(true);
        assert_eq!(sink.state, CommitState::CasAttempt);
        let candidate = sink.candidate.as_ref().unwrap().clone();
        let swapped = pointer.compare_and_swap(sink.expected_id(), candidate);
        if swapped {
            sink.cas_result(true, None);
            assert_eq!(sink.state, CommitState::Committed);
            return Ok(sink.candidate.unwrap());
        }
        sink.cas_result(false, Some(pointer.read_current().clone()));
        assert_eq!(sink.state, CommitState::ConflictRetry);
        sink.resolve_conflict();
        if sink.state == CommitState::Aborted {
            return Err(sink.failure.unwrap());
        }
    }
}

#[test]
fn merge_scenario_replaces_and_appends() {
    // Base: one block of 100 rows keyed by column 0.
    let base_rows: Vec<Vec<Datum>> = (0..100).map(|v| int_row(&[v, v * 10])).collect();
    let mut pointer = table_of(base_rows, 100, 2);
    let base = pointer.read_current().clone();
    let target = &base.segments[0].blocks[0];

    // Source: 10 new rows and 5 updates, matched by key; 3 other rows
    // are deleted.
    let mut source: Vec<Vec<Datum>> = (100..110).map(|v| int_row(&[v, -v])).collect();
    for v in 0..5 {
        source.push(int_row(&[v, 7777 + v]));
    }
    let key = vec![OnConflictField { field_index: 0 }];
    let decisions = match_block(&key, &source, target).unwrap();

    let mut agg = fuse_mutation::aggregator::MergeIntoOperationAggregator::create(vec![target.id]);
    let mut inserts: Vec<Vec<Datum>> = Vec::new();
    for (i, d) in decisions.iter().enumerate() {
        match d {
            MatchDecision::NotMatched => inserts.push(source[i].clone()),
            MatchDecision::Matched { block, offset } => {
                agg.accumulate(
                    MutationIntent::Replace {
                        block: *block,
                        offset: *offset,
                        row: source[i].clone(),
                    },
                    2,
                )
                .unwrap();
            }
        }
    }
    assert_eq!(inserts.len(), 10);
    for offset in [97u64, 98, 99] {
        agg.accumulate(MutationIntent::Delete { block: target.id, offset }, 2).unwrap();
    }

    let mut transform = AppendTransform::create(2, 0, 16, 2);
    let appended = transform.transform(&inserts);
    let mut table_agg = TableMutationAggregator::create();
    for m in agg.finish() {
        table_agg.add_op(MutationOp::Mutate(m), 2).unwrap();
    }
    for b in appended {
        table_agg.add_op(MutationOp::Append(b), 2).unwrap();
    }
    let next = transform.next_seq;
    let log = table_agg.into_log(2, next);

    // The delta holds one replacement covering the original block (92
    // surviving + 5 updated rows) and one appended block of 10 rows.
    let delta = finalize(&log, &base, 2).unwrap();
    assert_eq!(delta.touched.len(), 1);
    assert_eq!(delta.touched[0].id, target.id);
    match &delta.touched[0].op {
        BlockOp::Replace(nb) => {
            assert_eq!(nb.rows.len(), 97);
            assert_eq!(nb.rows[0], int_row(&[0, 7777]));
            assert_eq!(nb.rows[5], int_row(&[5, 50]));
        }
        BlockOp::Remove => panic!("the block must be replaced, not removed"),
    }
    assert_eq!(delta.appends.len(), 1);
    assert_eq!(delta.appends[0].rows.len(), 10);

    let m = delta_metrics(&delta, &log);
    assert_eq!(m.blocks_appended, 1);
    assert_eq!(m.blocks_replaced, 1);
    assert_eq!(m.blocks_removed, 0);
    assert_eq!(m.rows_inserted, 10);
    assert_eq!(m.rows_updated, 5);
    assert_eq!(m.rows_deleted, 3);

    let committed = execute_mutation(&mut pointer, &log, 2).unwrap();
    assert_eq!(committed.summary.row_count, 107);
    assert_eq!(pointer.read_current().summary.row_count, 107);
    assert_eq!(committed.prev, Some(base.id));
}

fn delete_one_row_log(writer: u64, block: BlockId, offset: u64, ncols: usize) -> MutationLog {
    let mut agg = fuse_mutation::aggregator::MergeIntoOperationAggregator::create(vec![block]);
    agg.accumulate(MutationIntent::Delete { block, offset }, ncols).unwrap();
    let mut table_agg = TableMutationAggregator::create();
    for m in agg.finish() {
        table_agg.add_op(MutationOp::Mutate(m), ncols).unwrap();
    }
    table_agg.into_log(writer, 0)
}

#[test]
fn concurrent_disjoint_mutations_both_commit() {
    // Two blocks; each mutation touches one of them, from the same base.
    let rows: Vec<Vec<Datum>> = (0..8).map(|v| int_row(&[v])).collect();
    let mut pointer = table_of(rows, 4, 1);
    let base = pointer.read_current().clone();
    let b0 = base.segments[0].blocks[0].id;
    let b1 = base.segments[0].blocks[1].id;

    let log_a = delete_one_row_log(2, b0, 0, 1);
    let log_b = delete_one_row_log(3, b1, 1, 1);

    // Both sinks build against the same base.
    let mut sink_a = CommitSink::create(base.clone(), log_a, 3, 1);
    let mut sink_b = CommitSink::create(base.clone(), log_b, 3, 1);

    sink_a.build();
    sink_b.build();
    sink_a.write_done(true);
    sink_b.write_done(true);

    // The first swap wins.
    let cand_a = sink_a.candidate.as_ref().unwrap().clone();
    assert!(pointer.compare_and_swap(sink_a.expected_id(), cand_a));
    sink_a.cas_result(true, None);
    assert_eq!(sink_a.state, CommitState::Committed);

    // The second fails, rebases onto the new current snapshot, and
    // succeeds on retry.
    let cand_b = sink_b.candidate.as_ref().unwrap().clone();
    assert!(!pointer.compare_and_swap(sink_b.expected_id(), cand_b));
    sink_b.cas_result(false, Some(pointer.read_current().clone()));
    sink_b.resolve_conflict();
    assert_eq!(sink_b.state, CommitState::Building);
    sink_b.build();
    sink_b.write_done(true);
    let cand_b2 = sink_b.candidate.as_ref().unwrap().clone();
    assert!(pointer.compare_and_swap(sink_b.expected_id(), cand_b2));
    sink_b.cas_result(true, None);
    assert_eq!(sink_b.state, CommitState::Committed);

    // The final snapshot holds both changes.
    let current = pointer.read_current();
    assert_eq!(current.summary.row_count, 6);
    let all_rows: Vec<&Vec<Datum>> = current
        .segments
        .iter()
        .flat_map(|s| s.blocks.iter())
        .flat_map(|b| b.rows.iter())
        .collect();
    assert!(!all_rows.contains(&&int_row(&[0])));
    assert!(!all_rows.contains(&&int_row(&[5])));
    assert_eq!(all_rows.len(), 6);
}

#[test]
fn failed_mutation_leaves_the_table_unchanged() {
    let rows: Vec<Vec<Datum>> = (0..4).map(|v| int_row(&[v])).collect();
    let mut pointer = table_of(rows, 4, 1);
    let before = pointer.read_current().clone();

    // The log names a block the table does not hold: the mutation fails
    // and a reader still observes the pre-mutation snapshot.
    let missing = BlockId { writer: 9, seq: 9 };
    let log = delete_one_row_log(2, missing, 0, 1);
    let r = execute_mutation(&mut pointer, &log, 1);
    assert_eq!(r.unwrap_err(), MutationError::ConflictingOperation);
    let after = pointer.read_current();
    assert_eq!(after.id, before.id);
    assert_eq!(after.summary.row_count, before.summary.row_count);
}

#[test]
fn write_failure_aborts_with_nothing_visible() {
    let rows: Vec<Vec<Datum>> = (0..4).map(|v| int_row(&[v])).collect();
    let mut pointer = table_of(rows, 4, 1);
    let base = pointer.read_current().clone();
    let b0 = base.segments[0].blocks[0].id;

    let log = delete_one_row_log(2, b0, 0, 1);
    let mut sink = CommitSink::create(base.clone(), log, 3, 1);
    sink.build();
    sink.write_done(false);
    assert_eq!(sink.state, CommitState::Aborted);
    assert_eq!(sink.failure, Some(MutationError::Io));
    assert_eq!(pointer.read_current().id, base.id);
}

#[test]
fn retry_budget_exhaustion_aborts() {
    let rows: Vec<Vec<Datum>> = (0..4).map(|v| int_row(&[v])).collect();
    let pointer = table_of(rows, 4, 1);
    let base = pointer.read_current().clone();
    let b0 = base.segments[0].blocks[0].id;

    let log = delete_one_row_log(2, b0, 0, 1);
    let mut sink = CommitSink::create(base.clone(), log, 0, 1);
    sink.build();
    sink.write_done(true);
    sink.cas_result(false, Some(base.clone()));
    sink.resolve_conflict();
    assert_eq!(sink.state, CommitState::Aborted);
    assert_eq!(sink.failure, Some(MutationError::MaxRetriesExceeded));
}

#[test]
fn overlapping_concurrent_commit_aborts() {
    let rows: Vec<Vec<Datum>> = (0..4).map(|v| int_row(&[v])).collect();
    let mut pointer = table_of(rows, 4, 1);
    let base = pointer.read_current().clone();
    let b0 = base.segments[0].blocks[0].id;

    // Both mutations touch the same block.
    let log_a = delete_one_row_log(2, b0, 0, 1);
    let log_b = delete_one_row_log(3, b0, 1, 1);

    let mut sink_b = CommitSink::create(base.clone(), log_b, 3, 1);
    sink_b.build();
    sink_b.write_done(true);

    // Mutation A commits first and replaces the block.
    commit_through_sink(&mut pointer, log_a, 3, 1).unwrap();

    let cand_b = sink_b.candidate.as_ref().unwrap().clone();
    assert!(!pointer.compare_and_swap(sink_b.expected_id(), cand_b));
    sink_b.cas_result(false, Some(pointer.read_current().clone()));
    sink_b.resolve_conflict();
    assert_eq!(sink_b.state, CommitState::Aborted);
    assert_eq!(sink_b.failure, Some(MutationError::Aborted));
    assert_eq!(pointer.read_current().summary.row_count, 3);
}

#[test]
fn superseded_idempotent_mutation_is_dropped_silently() {
    let rows: Vec<Vec<Datum>> = (0..4).map(|v| int_row(&[v])).collect();
    let mut pointer = table_of(rows, 4, 1);
    let base = pointer.read_current().clone();
    let b0 = base.segments[0].blocks[0].id;

    // A compaction-style, idempotent mutation of the same block loses
    // the race and is dropped without an error.
    let log_a = delete_one_row_log(2, b0, 0, 1);
    let log_b = delete_one_row_log(3, b0, 1, 1);

    let mut sink_b = CommitSink::create(base.clone(), log_b, 3, 1);
    sink_b.set_idempotent();
    sink_b.build();
    sink_b.write_done(true);

    commit_through_sink(&mut pointer, log_a, 3, 1).unwrap();

    let cand_b = sink_b.candidate.as_ref().unwrap().clone();
    assert!(!pointer.compare_and_swap(sink_b.expected_id(), cand_b));
    sink_b.cas_result(false, Some(pointer.read_current().clone()));
    sink_b.resolve_conflict();
    assert_eq!(sink_b.state, CommitState::Superseded);
    assert_eq!(sink_b.failure, None);
    assert_eq!(pointer.read_current().summary.row_count, 3);
}

#[test]
fn round_trip_statistics_match_a_direct_build() {
    let rows: Vec<Vec<Datum>> = (0..7).map(|v| int_row(&[v])).collect();

    // Direct build from the final row set.
    let direct_pointer = table_of(rows.clone(), 3, 1);
    let direct = direct_pointer.read_current().clone();

    // Build, delete everything, and re-insert the same rows.
    let mut pointer = table_of(rows.clone(), 3, 1);
    let s1 = pointer.read_current().clone();
    let mut table_agg = TableMutationAggregator::create();
    for seg in &s1.segments {
        for b in &seg.blocks {
            let mut agg =
                fuse_mutation::aggregator::MergeIntoOperationAggregator::create(vec![b.id]);
            for offset in 0..b.rows.len() as u64 {
                agg.accumulate(MutationIntent::Delete { block: b.id, offset }, 1).unwrap();
            }
            for m in agg.finish() {
                table_agg.add_op(MutationOp::Mutate(m), 1).unwrap();
            }
        }
    }
    let mut transform = AppendTransform::create(6, 0, 3, 1);
    for b in transform.transform(&rows) {
        table_agg.add_op(MutationOp::Append(b), 1).unwrap();
    }
    let next = transform.next_seq;
    let log = table_agg.into_log(6, next);
    let s2 = execute_mutation(&mut pointer, &log, 1).unwrap();

    // Block and segment statistics equal those of the direct build.
    assert_eq!(s2.summary.row_count, direct.summary.row_count);
    assert_eq!(s2.summary.byte_size, direct.summary.byte_size);
    assert_eq!(s2.summary.cols, direct.summary.cols);
    assert_eq!(s2.segments.len(), direct.segments.len());
    for (seg2, segd) in s2.segments.iter().zip(direct.segments.iter()) {
        assert_eq!(seg2.summary.row_count, segd.summary.row_count);
        assert_eq!(seg2.summary.byte_size, segd.summary.byte_size);
        assert_eq!(seg2.summary.cols, segd.summary.cols);
        assert_eq!(seg2.blocks.len(), segd.blocks.len());
        for (b2, bd) in seg2.blocks.iter().zip(segd.blocks.iter()) {
            assert_eq!(b2.rows, bd.rows);
            assert_eq!(b2.stats.cols, bd.stats.cols);
            assert_eq!(b2.stats.row_count, bd.stats.row_count);
        }
    }
}
