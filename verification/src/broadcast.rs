//! The broadcast stage: routing match keys to target partitions.
//!
//! Target blocks are partitioned across parallel workers while a source
//! row may match a row of any partition, so the minimal per-row matching
//! key — never the full row — is replicated to every partition holding
//! candidate target blocks.  Candidacy is read off the blocks' stored
//! statistics, and pruning is complete: a partition holding a row that
//! carries the key always receives the key, in arrival order.

use vstd::prelude::*;
use crate::datum::{Datum, rows_view};
use crate::block::{Block, BlockView};
use crate::matcher::{OnConflictField, row_key};
use crate::stats::{StatsView, cell_at, col_nulls, lemma_col_bounds};

verus! {

/// One worker's share of the target blocks.
#[derive(Debug)]
pub struct Partition {
    pub blocks: Vec<Block>,
}

impl View for Partition {
    type V = Seq<BlockView>;

    open spec fn view(&self) -> Seq<BlockView> {
        self.blocks@.map_values(|b: Block| b@)
    }
}

/// The statistics of a block admit `v` in column `col`: a null needs a
/// counted null, a value needs the column's range to reach it.
pub open spec fn cell_admitted(s: StatsView, col: int, v: Datum) -> bool {
    &&& 0 <= col < s.cols.len()
    &&& match v {
        Datum::Null => s.cols[col].null_count > 0,
        Datum::Int(x) => {
            &&& s.cols[col].min matches Datum::Int(mn) && mn <= x
            &&& s.cols[col].max matches Datum::Int(mx) && mx >= x
        },
    }
}

/// A block may hold a row carrying key value `kv`, as far as its
/// statistics show.
pub open spec fn key_candidate(b: BlockView, key: Seq<OnConflictField>, kv: Seq<Datum>) -> bool {
    forall|k: int|
        0 <= k < key.len() ==> cell_admitted(b.stats, (#[trigger] key[k]).field_index as int, kv[k])
}

/// A partition holds some candidate block for key value `kv`.
pub open spec fn relevant(blocks: Seq<BlockView>, key: Seq<OnConflictField>, kv: Seq<Datum>) -> bool {
    exists|i: int| 0 <= i < blocks.len() && key_candidate(#[trigger] blocks[i], key, kv)
}

/// The keys one partition receives: exactly the relevant subset, in
/// arrival order.
pub open spec fn routed(
    keys: Seq<Seq<Datum>>,
    blocks: Seq<BlockView>,
    key: Seq<OnConflictField>,
) -> Seq<Seq<Datum>>
    decreases keys.len(),
{
    if keys.len() == 0 {
        Seq::empty()
    } else {
        routed(keys.drop_last(), blocks, key) + (if relevant(blocks, key, keys.last()) {
            seq![keys.last()]
        } else {
            Seq::empty()
        })
    }
}

/// A column with a null cell counts at least one null.
pub proof fn lemma_col_nulls_pos(rows: Seq<Seq<Datum>>, c: int, i: int)
    requires
        0 <= i < rows.len(),
        cell_at(rows[i], c) is Null,
    ensures
        col_nulls(rows, c) > 0,
    decreases rows.len(),
{
    if i < rows.len() - 1 {
        assert(rows.drop_last()[i] == rows[i]);
        lemma_col_nulls_pos(rows.drop_last(), c, i);
    }
}

/// Pruning is complete: a well-formed block holding a row that carries
/// key value `kv` is a candidate for `kv`.
pub proof fn lemma_match_implies_candidate(
    b: BlockView,
    key: Seq<OnConflictField>,
    kv: Seq<Datum>,
    i: int,
    ncols: nat,
)
    requires
        b.wf(ncols),
        b.rows.len() <= u64::MAX,
        forall|k: int| 0 <= k < key.len() ==> (#[trigger] key[k]).field_index < ncols,
        0 <= i < b.rows.len(),
        row_key(b.rows[i], key) == kv,
    ensures
        key_candidate(b, key, kv),
{
    assert forall|k: int|
        0 <= k < key.len() implies cell_admitted(
        b.stats,
        (#[trigger] key[k]).field_index as int,
        kv[k],
    ) by {
        let c = key[k].field_index as int;
        assert(kv[k] == cell_at(b.rows[i], c));
        lemma_col_bounds(b.rows, c);
        match kv[k] {
            Datum::Null => {
                lemma_col_nulls_pos(b.rows, c, i);
                crate::block::lemma_col_nulls_le(b.rows, c);
            },
            Datum::Int(x) => {
                assert(cell_at(b.rows[i], c) == Datum::Int(x));
            },
        }
    }
}

/// Decides from a block's statistics whether it may hold a row carrying
/// key value `kv`.
fn key_candidate_exec(b: &Block, key: &Vec<OnConflictField>, kv: &Vec<Datum>) -> (r: bool)
    requires
        kv@.len() == key@.len(),
    ensures
        r == key_candidate(b@, key@, kv@),
{
    let n = key.len();
    let mut k: usize = 0;
    while k < n
        invariant
            n == key@.len() == kv@.len(),
            0 <= k <= n,
            forall|t: int|
                0 <= t < k ==> cell_admitted(
                    b@.stats,
                    (#[trigger] key@[t]).field_index as int,
                    kv@[t],
                ),
        decreases n - k,
    {
        let col = key[k].field_index;
        if col >= b.stats.cols.len() {
            return false;
        }
        let cs = b.stats.cols[col];
        let ok = match kv[k] {
            Datum::Null => cs.null_count > 0,
            Datum::Int(x) => {
                let lo = match cs.min {
                    Datum::Null => false,
                    Datum::Int(mn) => mn <= x,
                };
                let hi = match cs.max {
                    Datum::Null => false,
                    Datum::Int(mx) => mx >= x,
                };
                lo && hi
            },
        };
        if !ok {
            return false;
        }
        k = k + 1;
    }
    true
}

/// Decides whether a partition holds any candidate block for `kv`.
fn relevant_exec(blocks: &Vec<Block>, key: &Vec<OnConflictField>, kv: &Vec<Datum>) -> (r: bool)
    requires
        kv@.len() == key@.len(),
    ensures
        r == relevant(blocks@.map_values(|b: Block| b@), key@, kv@),
{
    let ghost bv = blocks@.map_values(|b: Block| b@);
    let mut i: usize = 0;
    while i < blocks.len()
        invariant
            kv@.len() == key@.len(),
            bv == blocks@.map_values(|b: Block| b@),
            0 <= i <= bv.len(),
            forall|t: int| 0 <= t < i ==> !key_candidate(#[trigger] bv[t], key@, kv@),
        decreases bv.len() - i,
    {
        if key_candidate_exec(&blocks[i], key, kv) {
            assert(bv[i as int] == blocks@[i as int]@);
            return true;
        }
        assert(bv[i as int] == blocks@[i as int]@);
        i = i + 1;
    }
    false
}

/// The broadcast stage of one merge: carries the on-conflict key whose
/// per-row values it routes.
#[derive(Debug)]
pub struct BroadcastProcessor {
    pub key: Vec<OnConflictField>,
}

impl BroadcastProcessor {
    /// Creates a broadcast stage for `key`.
    pub fn create(key: Vec<OnConflictField>) -> (r: Self)
        ensures
            r.key@ == key@,
    {
        BroadcastProcessor { key }
    }

    /// Routes each key value, in order, to every partition holding a
    /// candidate target block for it: partition `p` receives exactly
    /// `routed(keys, partitions[p], key)`.
    pub fn route(&self, keys: &Vec<Vec<Datum>>, partitions: &Vec<Partition>) -> (r: Vec<
        Vec<Vec<Datum>>,
    >)
        requires
            forall|t: int| 0 <= t < keys@.len() ==> (#[trigger] keys@[t]@).len() == self.key@.len(),
        ensures
            r@.len() == partitions@.len(),
            forall|p: int|
                0 <= p < r@.len() ==> rows_view(#[trigger] r@[p]@) == routed(
                    rows_view(keys@),
                    partitions@[p]@,
                    self.key@,
                ),
    {
        let ghost kv = rows_view(keys@);
        let mut r: Vec<Vec<Vec<Datum>>> = Vec::new();
        let mut p: usize = 0;
        while p < partitions.len()
            invariant
                kv == rows_view(keys@),
                forall|t: int| 0 <= t < keys@.len() ==> (#[trigger] keys@[t]@).len()
                    == self.key@.len(),
                0 <= p <= partitions@.len(),
                r@.len() == p,
                forall|t: int|
                    0 <= t < p ==> rows_view(#[trigger] r@[t]@) == routed(
                        kv,
                        partitions@[t]@,
                        self.key@,
                    ),
            decreases partitions@.len() - p,
        {
            let ghost pb = partitions@[p as int]@;
            let mut out: Vec<Vec<Datum>> = Vec::new();
            let mut i: usize = 0;
            while i < keys.len()
                invariant
                    kv == rows_view(keys@),
                    forall|t: int| 0 <= t < keys@.len() ==> (#[trigger] keys@[t]@).len()
                        == self.key@.len(),
                    0 <= p < partitions@.len(),
                    pb == partitions@[p as int]@,
                    0 <= i <= keys@.len(),
                    rows_view(out@) == routed(kv.take(i as int), pb, self.key@),
                decreases keys@.len() - i,
            {
                proof {
                    assert(kv.take(i + 1).drop_last() =~= kv.take(i as int));
                    assert(kv.take(i + 1).last() == kv[i as int]);
                    assert(kv[i as int] == keys@[i as int]@);
                }
                if relevant_exec(&partitions[p].blocks, &self.key, &keys[i]) {
                    let k = crate::block::copy_row(&keys[i]);
                    out.push(k);
                    proof {
                        assert(rows_view(out@) =~= routed(kv.take(i + 1), pb, self.key@));
                    }
                } else {
                    proof {
                        assert(rows_view(out@) =~= routed(kv.take(i + 1), pb, self.key@));
                    }
                }
                i = i + 1;
            }
            proof {
                assert(kv.take(keys@.len() as int) =~= kv);
            }
            r.push(out);
            proof {
                assert(r@[p as int]@ == out@);
            }
            p = p + 1;
        }
        r
    }
}

} // verus!
