//! Chunked export of serialized metadata entries.
//!
//! The export hands its entries out in chunks of at most
//! [`EXPORT_CHUNK_ROWS`] from the front, in order, until none are left;
//! framing the chunks as a network stream stays with the caller.

use vstd::prelude::*;

verus! {

/// Greatest number of entries one chunk carries.
pub const EXPORT_CHUNK_ROWS: usize = 16;

/// The not-yet-exported entries.
#[derive(Debug)]
pub struct ExportStream {
    pub data: Vec<String>,
}

impl ExportStream {
    /// The entries still to export, as views.
    pub open spec fn spec_data(self) -> Seq<Seq<char>> {
        self.data@.map_values(|s: String| s@)
    }

    /// Hands out the next chunk: the first `min(16, remaining)` entries,
    /// removed from the front; `None` once nothing remains.
    pub fn next_chunk(&mut self) -> (r: Option<Vec<String>>)
        ensures
            match r {
                None => old(self).spec_data().len() == 0 && final(self).spec_data() == old(
                    self,
                ).spec_data(),
                Some(c) => {
                    &&& old(self).spec_data().len() > 0
                    &&& c@.map_values(|s: String| s@) == old(self).spec_data().take(
                        crate::append::spec_min(
                            EXPORT_CHUNK_ROWS as int,
                            old(self).spec_data().len() as int,
                        ),
                    )
                    &&& final(self).spec_data() == old(self).spec_data().skip(
                        crate::append::spec_min(
                            EXPORT_CHUNK_ROWS as int,
                            old(self).spec_data().len() as int,
                        ),
                    )
                },
            },
    {
        let ghost pre = self.spec_data();
        let n = self.data.len();
        if n == 0 {
            return None;
        }
        let k = if EXPORT_CHUNK_ROWS < n {
            EXPORT_CHUNK_ROWS
        } else {
            n
        };
        let mut out: Vec<String> = Vec::new();
        let mut i: usize = 0;
        while i < k
            invariant
                0 <= i <= k <= pre.len(),
                self.spec_data() == pre.skip(i as int),
                out@.map_values(|s: String| s@) == pre.take(i as int),
            decreases k - i,
        {
            proof {
                assert(self.data@.len() == self.spec_data().len());
                assert(self.spec_data().len() == pre.len() - i);
            }
            let ghost dpre = self.data@;
            let s = self.data.remove(0);
            out.push(s);
            proof {
                assert(self.data@ =~= dpre.subrange(1, dpre.len() as int));
                assert forall|t: int|
                    0 <= t < self.spec_data().len() implies #[trigger] self.spec_data()[t]
                    == pre.skip(i + 1)[t] by {
                    assert(self.data@[t] == dpre[t + 1]);
                    assert(dpre.map_values(|s2: String| s2@)[t + 1] == dpre[t + 1]@);
                    assert(dpre.map_values(|s2: String| s2@) == pre.skip(i as int));
                }
                assert(self.spec_data() =~= pre.skip(i + 1));
                assert(s == dpre[0]);
                assert(dpre.map_values(|s2: String| s2@)[0] == dpre[0]@);
                assert(pre.skip(i as int)[0] == pre[i as int]);
                assert(s@ == pre[i as int]);
                assert(out@.map_values(|s2: String| s2@) =~= pre.take(i as int).push(
                    pre[i as int],
                ));
                assert(pre.take(i + 1) =~= pre.take(i as int).push(pre[i as int]));
            }
            i = i + 1;
        }
        Some(out)
    }
}

} // verus!
