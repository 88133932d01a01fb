//! Block-storage capability consumed by a filesystem layer.
use vstd::prelude::*;

verus! {

/// A device that reads and writes data in units of whole blocks.
/// The hosting environment implements it.
pub trait BlockDevice: Send + Sync {
    /// Reads block `block_id` into `buf`.
    fn read_block(&self, block_id: usize, buf: &mut [u8]);

    /// Writes `buf` to block `block_id`.
    fn write_block(&self, block_id: usize, buf: &[u8]);
}

} // verus!
