//! What the file system reports about a file, and how much of the file is
//! sampled on the strength of it.

use vstd::prelude::*;

verus! {

/// Ceiling of 64 KiB on the amount of a file that is sampled.
pub const MAX_CHUNK: u64 = 65_536;

/// The amount sampled when the file system reports no sensible block size, or
/// the platform does not expose one.
pub const DEFAULT_CHUNK: u64 = 4096;

/// A stable identity of a physical file: device and inode on Unix. Names with
/// the same identity are hard links to one file.
pub type PhysicalId = (u64, u64);

/// The number of bytes to sample, given the block size that the platform
/// reports, if it reports one.
pub open spec fn sampled_bytes(block_size: Option<u64>) -> u64 {
    match block_size {
        None => DEFAULT_CHUNK,
        Some(size) => if size == 0 {
            DEFAULT_CHUNK
        } else if size <= MAX_CHUNK {
            size
        } else {
            MAX_CHUNK
        },
    }
}

/// The number of bytes to sample of a file on a file system with this block
/// size; `None` where the platform exposes none.
pub fn chunk_size(block_size: Option<u64>) -> (chunk: u64)
    ensures
        chunk == sampled_bytes(block_size),
{
    match block_size {
        None => DEFAULT_CHUNK,
        Some(size) => if size == 0 {
            DEFAULT_CHUNK
        } else if size < MAX_CHUNK {
            size
        } else {
            MAX_CHUNK
        },
    }
}

/// A sample is never empty and never above the ceiling.
pub proof fn law_sample_is_bounded(block_size: Option<u64>)
    ensures
        1 <= sampled_bytes(block_size) <= MAX_CHUNK,
{
}

/// A sample is as long as the blocks of the file system, up to 64 KiB; beyond,
/// and where there is no sensible block size, its length no longer depends on
/// it.
pub proof fn law_samples_follow_the_block_size(size: u64)
    ensures
        1 <= size <= 65_536 ==> sampled_bytes(Some(size)) == size,
        size > 65_536 ==> sampled_bytes(Some(size)) == sampled_bytes(Some(65_536)),
        sampled_bytes(Some(0)) == sampled_bytes(None),
        sampled_bytes(None) == sampled_bytes(Some(4096)),
{
}

} // verus!
