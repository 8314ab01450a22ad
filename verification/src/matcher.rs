//! On-conflict matching: row identity during a merge.
//!
//! An on-conflict key is an ordered set of column references.  For each
//! source row and one target block, the matcher decides whether the source
//! row updates an existing target row or is a new insert.  A key value
//! matching two or more target rows — or two source rows carrying the same
//! key while it matches a target — is reported as an error, never resolved
//! by a silent choice; merge semantics allow at most one target match per
//! source row.  Matching is a pure function of its inputs, so re-running
//! it over the same data reproduces identical decisions.

use vstd::prelude::*;
use crate::datum::{Datum, datum_eq};
use crate::errors::MutationError;
use crate::block::{Block, BlockId};
use crate::stats::cell_at;

verus! {

/// One column of the on-conflict key.
#[derive(Clone, Copy, Debug, PartialEq, Eq, Structural)]
pub struct OnConflictField {
    /// Index of the key column in the table's schema.
    pub field_index: usize,
}

/// The decision for one source row against one target block.
#[derive(Clone, Copy, Debug, PartialEq, Eq, Structural)]
pub enum MatchDecision {
    /// No target row carries the source row's key: the row is an insert.
    NotMatched,
    /// Exactly one target row carries the key: the source row updates the
    /// row at `offset` of block `block`.
    Matched { block: BlockId, offset: u64 },
}

/// The key cells of a row, in key order.
pub open spec fn row_key(row: Seq<Datum>, key: Seq<OnConflictField>) -> Seq<Datum> {
    Seq::new(key.len(), |k: int| cell_at(row, key[k].field_index as int))
}

/// Two rows carry the same key.
pub open spec fn keys_match(a: Seq<Datum>, b: Seq<Datum>, key: Seq<OnConflictField>) -> bool {
    row_key(a, key) == row_key(b, key)
}

/// How many rows of `tgt` carry the key of `src`.
pub open spec fn match_count(src: Seq<Datum>, tgt: Seq<Seq<Datum>>, key: Seq<OnConflictField>) -> nat
    decreases tgt.len(),
{
    if tgt.len() == 0 {
        0
    } else {
        match_count(src, tgt.drop_last(), key) + (if keys_match(src, tgt.last(), key) {
            1nat
        } else {
            0nat
        })
    }
}

/// Matching `src_rows` against `tgt` is ambiguous: some source row's key
/// occurs in more than one target row, or two source rows carry the same
/// key while it matches a target row.
pub open spec fn ambiguous(
    src_rows: Seq<Seq<Datum>>,
    tgt: Seq<Seq<Datum>>,
    key: Seq<OnConflictField>,
) -> bool {
    ||| exists|i: int| 0 <= i < src_rows.len() && match_count(#[trigger] src_rows[i], tgt, key) > 1
    ||| exists|i: int, j: int|
        0 <= i < j < src_rows.len() && match_count(#[trigger] src_rows[i], tgt, key) >= 1
            && keys_match(src_rows[i], #[trigger] src_rows[j], key)
}

/// Rows with equal keys match the same target rows.
pub proof fn lemma_equal_keys_equal_count(
    a: Seq<Datum>,
    b: Seq<Datum>,
    tgt: Seq<Seq<Datum>>,
    key: Seq<OnConflictField>,
)
    requires
        row_key(a, key) == row_key(b, key),
    ensures
        match_count(a, tgt, key) == match_count(b, tgt, key),
    decreases tgt.len(),
{
    if tgt.len() > 0 {
        lemma_equal_keys_equal_count(a, b, tgt.drop_last(), key);
    }
}

/// Reads the cell of `row` at `idx`, `Null` beyond the row's width.
pub fn get_cell(row: &Vec<Datum>, idx: usize) -> (r: Datum)
    ensures
        r == cell_at(row@, idx as int),
{
    if idx < row.len() {
        row[idx]
    } else {
        Datum::Null
    }
}

/// Compares the keys of two rows.
pub fn keys_eq(a: &Vec<Datum>, b: &Vec<Datum>, key: &Vec<OnConflictField>) -> (r: bool)
    ensures
        r == keys_match(a@, b@, key@),
{
    let n = key.len();
    let mut k: usize = 0;
    while k < n
        invariant
            n == key@.len(),
            0 <= k <= n,
            forall|t: int| 0 <= t < k ==> row_key(a@, key@)[t] == row_key(b@, key@)[t],
        decreases n - k,
    {
        let ca = get_cell(a, key[k].field_index);
        let cb = get_cell(b, key[k].field_index);
        if !datum_eq(&ca, &cb) {
            assert(row_key(a@, key@)[k as int] != row_key(b@, key@)[k as int]);
            return false;
        }
        k = k + 1;
    }
    assert(row_key(a@, key@) =~= row_key(b@, key@));
    true
}

/// Counts the target rows carrying the key of `src`, and notes the first.
fn count_matches(src: &Vec<Datum>, tgt: &Vec<Vec<Datum>>, key: &Vec<OnConflictField>) -> (r: (
    u64,
    u64,
))
    requires
        tgt@.len() <= u64::MAX,
    ensures
        r.0 == match_count(src@, crate::datum::rows_view(tgt@), key@),
        r.0 > 0 ==> 0 <= r.1 < tgt@.len() && keys_match(src@, tgt@[r.1 as int]@, key@)
            && forall|k: int| 0 <= k < r.1 ==> !keys_match(src@, #[trigger] tgt@[k]@, key@),
{
    let ghost tv = crate::datum::rows_view(tgt@);
    let mut cnt: u64 = 0;
    let mut first: u64 = 0;
    let mut i: usize = 0;
    while i < tgt.len()
        invariant
            tv == crate::datum::rows_view(tgt@),
            tgt@.len() <= u64::MAX,
            0 <= i <= tgt@.len(),
            cnt == match_count(src@, tv.take(i as int), key@),
            cnt <= i,
            cnt > 0 ==> 0 <= first < i && keys_match(src@, tgt@[first as int]@, key@)
                && forall|k: int| 0 <= k < first ==> !keys_match(src@, #[trigger] tgt@[k]@, key@),
            cnt == 0 ==> forall|k: int| 0 <= k < i ==> !keys_match(src@, #[trigger] tgt@[k]@, key@),
        decreases tgt@.len() - i,
    {
        proof {
            assert(tv.take(i + 1).drop_last() =~= tv.take(i as int));
            assert(tv.take(i + 1).last() == tv[i as int]);
            assert(tv[i as int] == tgt@[i as int]@);
        }
        if keys_eq(src, &tgt[i], key) {
            if cnt == 0 {
                first = i as u64;
            }
            cnt = cnt + 1;
        }
        i = i + 1;
    }
    proof {
        assert(tv.take(tgt@.len() as int) =~= tv);
    }
    (cnt, first)
}

/// Matches a batch of source rows against one target block.
///
/// Returns one decision per source row: `Matched` names the block and the
/// offset of the single target row carrying the source row's key,
/// `NotMatched` says no target row carries it.  When any source row's key
/// occurs in several target rows, or two source rows carry one key that
/// matches, the whole match fails with
/// [`MutationError::MultipleMatch`] — exactly when matching is ambiguous.
pub fn match_block(
    key: &Vec<OnConflictField>,
    source: &Vec<Vec<Datum>>,
    target: &Block,
) -> (r: Result<Vec<MatchDecision>, MutationError>)
    requires
        target@.rows.len() <= u64::MAX,
    ensures
        match r {
            Ok(ds) => {
                &&& !ambiguous(crate::datum::rows_view(source@), target@.rows, key@)
                &&& ds@.len() == source@.len()
                &&& forall|i: int|
                    0 <= i < ds@.len() ==> match #[trigger] ds@[i] {
                        MatchDecision::NotMatched => match_count(
                            source@[i]@,
                            target@.rows,
                            key@,
                        ) == 0,
                        MatchDecision::Matched { block, offset } => {
                            &&& block == target@.id
                            &&& 0 <= offset < target@.rows.len()
                            &&& keys_match(source@[i]@, target@.rows[offset as int], key@)
                            &&& match_count(source@[i]@, target@.rows, key@) == 1
                            &&& forall|k: int|
                                0 <= k < offset ==> !keys_match(
                                    source@[i]@,
                                    #[trigger] target@.rows[k],
                                    key@,
                                )
                        },
                    }
            },
            Err(e) => {
                &&& e == MutationError::MultipleMatch
                &&& ambiguous(crate::datum::rows_view(source@), target@.rows, key@)
            },
        },
{
    let ghost sv = crate::datum::rows_view(source@);
    let ghost tv = target@.rows;
    let mut ds: Vec<MatchDecision> = Vec::new();
    let mut i: usize = 0;
    while i < source.len()
        invariant
            sv == crate::datum::rows_view(source@),
            tv == target@.rows,
            tv.len() <= u64::MAX,
            0 <= i <= source@.len(),
            ds@.len() == i,
            forall|t: int|
                0 <= t < i ==> match #[trigger] ds@[t] {
                    MatchDecision::NotMatched => match_count(sv[t], tv, key@) == 0,
                    MatchDecision::Matched { block, offset } => {
                        &&& block == target@.id
                        &&& 0 <= offset < tv.len()
                        &&& keys_match(sv[t], tv[offset as int], key@)
                        &&& match_count(sv[t], tv, key@) == 1
                        &&& forall|k: int|
                            0 <= k < offset ==> !keys_match(sv[t], #[trigger] tv[k], key@)
                    },
                },
            forall|t: int| 0 <= t < i ==> match_count(#[trigger] sv[t], tv, key@) <= 1,
            forall|t: int, u: int|
                0 <= t < u < i && match_count(#[trigger] sv[t], tv, key@) >= 1 ==> !keys_match(
                    sv[t],
                    #[trigger] sv[u],
                    key@,
                ),
        decreases source@.len() - i,
    {
        let (cnt, first) = count_matches(&source[i], &target.rows, key);
        assert(sv[i as int] == source@[i as int]@);
        if cnt > 1 {
            assert(ambiguous(sv, tv, key@));
            return Err(MutationError::MultipleMatch);
        }
        if cnt == 1 {
            // A second source row carrying a matched key would make two
            // updates hit one target row: report, do not choose.
            let mut j: usize = 0;
            while j < i
                invariant
                    sv == crate::datum::rows_view(source@),
                    tv == target@.rows,
                    0 <= j <= i < source@.len(),
                    match_count(sv[i as int], tv, key@) == 1,
                    forall|k: int| 0 <= k < j ==> !keys_match(#[trigger] sv[k], sv[i as int], key@),
                decreases i - j,
            {
                if keys_eq(&source[j], &source[i], key) {
                    proof {
                        assert(sv[j as int] == source@[j as int]@);
                        assert(sv[i as int] == source@[i as int]@);
                        lemma_equal_keys_equal_count(sv[j as int], sv[i as int], tv, key@);
                        assert(0 <= j < i < sv.len() && match_count(sv[j as int], tv, key@) >= 1
                            && keys_match(sv[j as int], sv[i as int], key@));
                        assert(ambiguous(sv, tv, key@));
                    }
                    return Err(MutationError::MultipleMatch);
                }
                assert(sv[j as int] == source@[j as int]@);
                j = j + 1;
            }
            ds.push(MatchDecision::Matched { block: target.id, offset: first });
        } else {
            proof {
                assert forall|t: int|
                    0 <= t < i && match_count(#[trigger] sv[t], tv, key@) >= 1 implies !keys_match(
                    sv[t],
                    sv[i as int],
                    key@,
                ) by {
                    if keys_match(sv[t], sv[i as int], key@) {
                        lemma_equal_keys_equal_count(sv[t], sv[i as int], tv, key@);
                    }
                }
            }
            ds.push(MatchDecision::NotMatched);
        }
        i = i + 1;
    }
    proof {
        assert(!ambiguous(sv, tv, key@)) by {
            if exists|t: int| 0 <= t < sv.len() && match_count(#[trigger] sv[t], tv, key@) > 1 {
                let t = choose|t: int|
                    0 <= t < sv.len() && match_count(#[trigger] sv[t], tv, key@) > 1;
                assert(match_count(sv[t], tv, key@) <= 1);
            }
        }
    }
    Ok(ds)
}

} // verus!
