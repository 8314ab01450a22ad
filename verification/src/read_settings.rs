//! Tunables of the block reader.

use vstd::prelude::*;

verus! {

/// How the reader merges and bounds its storage range requests.
#[derive(Clone, Copy, Debug, PartialEq, Eq, Structural)]
pub struct ReadSettings {
    /// Below this gap, two ranges are read as one instead of seeking.
    pub storage_io_min_bytes_for_seek: u64,
    /// Greatest number of bytes one range request may cover.
    pub storage_io_max_page_bytes_for_read: u64,
}

impl Default for ReadSettings {
    /// One kibibyte before seeking, one mebibyte per range request.
    fn default() -> (r: Self)
        ensures
            r.storage_io_min_bytes_for_seek == 1024,
            r.storage_io_max_page_bytes_for_read == 1024 * 1024,
    {
        ReadSettings {
            storage_io_min_bytes_for_seek: 1024,
            storage_io_max_page_bytes_for_read: 1024 * 1024,
        }
    }
}

} // verus!
