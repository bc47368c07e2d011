//! On-disk records: superblock, disk inodes and directory entries.
//!
//! The filesystem reads and writes its records field by field as
//! little-endian 32-bit words through the block cache; this module holds
//! the word primitives and the field offsets.  A disk inode is a fixed
//! 128-byte record: `size`, 28 direct block pointers, one indirect and
//! one doubly-indirect pointer, and the type.  A directory entry is 32
//! bytes: a NUL-padded name of at most 27 bytes plus the inode number.

use vstd::prelude::*;

use crate::block_cache::BlockCacheManager;
use crate::block_dev::{splice, BLOCK_SZ};

verus! {

broadcast use crate::block_cache::BlockCacheManager::lemma_disk_view_len, crate::block_cache::BlockCacheManager::lemma_disk_view_block_len;

/// Magic number of a valid filesystem image.
pub const EFS_MAGIC: u32 = 0x3b800001;
/// Number of direct block pointers in a disk inode.
pub const INODE_DIRECT_COUNT: usize = 28;
/// Number of block pointers in an indirect block.
pub const INODE_INDIRECT1_COUNT: usize = 128;
/// Highest data-block index reachable through the direct pointers.
pub const DIRECT_BOUND: usize = 28;
/// Highest data-block index reachable through the indirect-1 block.
pub const INDIRECT1_BOUND: usize = 156;
/// Largest number of data blocks a file can have.
pub const MAX_DATA_BLOCKS: usize = 156 + 128 * 128;
/// Largest file size, in bytes.
pub const MAX_FILE_SIZE: usize = (156 + 128 * 128) * 512;
/// Size of a disk inode record, in bytes.
pub const DISK_INODE_SIZE: usize = 128;
/// Number of inode records in one block.
pub const INODES_PER_BLOCK: usize = 4;
/// Size of a directory entry, in bytes.
pub const DIRENT_SZ: usize = 32;
/// Longest directory-entry name, in bytes.
pub const NAME_LENGTH_LIMIT: usize = 27;
/// A file-typed inode, as stored in the type word.
pub const TYPE_FILE: u32 = 0;
/// A directory-typed inode, as stored in the type word.
pub const TYPE_DIR: u32 = 1;

/// The little-endian 32-bit word at `off` of byte sequence `b`.
pub open spec fn u32_le(b: Seq<u8>, off: int) -> int {
    b[off] + 256 * (b[off + 1] + 256 * (b[off + 2] + 256 * b[off + 3]))
}

/// The four little-endian bytes of word `v`.
pub open spec fn u32_bytes(v: int) -> Seq<u8> {
    seq![
        (v % 256) as u8,
        ((v / 256) % 256) as u8,
        ((v / 65536) % 256) as u8,
        ((v / 16777216) % 256) as u8,
    ]
}

/// Writing the four bytes of a word and reading them back returns the
/// word.
pub proof fn lemma_u32_round_trip(v: int)
    requires
        0 <= v < 0x1_0000_0000,
    ensures
        u32_le(u32_bytes(v), 0) == v,
{
    assert(u32_le(u32_bytes(v), 0) == v % 256 + 256 * ((v / 256) % 256 + 256 * ((v / 65536) % 256
        + 256 * ((v / 16777216) % 256))));
    assert(v % 256 + 256 * ((v / 256) % 256 + 256 * ((v / 65536) % 256 + 256 * ((v / 16777216)
        % 256))) == v) by (nonlinear_arith)
        requires
            0 <= v < 0x1_0000_0000,
    ;
}

/// Read the word at `(block_id, offset)` of the logical disk.
pub fn read_u32(cache: &mut BlockCacheManager, block_id: usize, offset: usize) -> (r: u32)
    requires
        old(cache).wf(),
        block_id < old(cache).spec_total_blocks(),
        offset + 4 <= BLOCK_SZ,
    ensures
        final(cache).wf(),
        final(cache).disk_view() == old(cache).disk_view(),
        final(cache).spec_total_blocks() == old(cache).spec_total_blocks(),
        r as int == u32_le(old(cache).disk_view()[block_id as int], offset as int),
        0 <= u32_le(old(cache).disk_view()[block_id as int], offset as int) < 0x1_0000_0000,
{
    let bytes = cache.read_block_range(block_id, offset, 4);
    let b0 = bytes[0] as u32;
    let b1 = bytes[1] as u32;
    let b2 = bytes[2] as u32;
    let b3 = bytes[3] as u32;
    proof {
        assert(bytes@[0] == old(cache).disk_view()[block_id as int][offset as int]);
        assert(bytes@[1] == old(cache).disk_view()[block_id as int][offset + 1]);
        assert(bytes@[2] == old(cache).disk_view()[block_id as int][offset + 2]);
        assert(bytes@[3] == old(cache).disk_view()[block_id as int][offset + 3]);
    }
    b0 + 256 * b1 + 65536 * b2 + 16777216 * b3
}

/// Overwrite the word at `(block_id, offset)` of the logical disk;
/// every other byte keeps its value.
pub fn write_u32(cache: &mut BlockCacheManager, block_id: usize, offset: usize, v: u32)
    requires
        old(cache).wf(),
        block_id < old(cache).spec_total_blocks(),
        offset + 4 <= BLOCK_SZ,
    ensures
        final(cache).wf(),
        final(cache).spec_total_blocks() == old(cache).spec_total_blocks(),
        final(cache).disk_view() == old(cache).disk_view().update(
            block_id as int,
            splice(old(cache).disk_view()[block_id as int], offset as int, u32_bytes(v as int)),
        ),
        u32_le(final(cache).disk_view()[block_id as int], offset as int) == v as int,
        forall|j: int|
            0 <= j < BLOCK_SZ && !(offset <= j < offset + 4) ==> (#[trigger] final(
                cache).disk_view()[block_id as int][j]) == old(cache).disk_view()[block_id as int][j],
        forall|b: int|
            0 <= b < old(cache).spec_total_blocks() && b != block_id ==> (#[trigger] final(
                cache).disk_view()[b]) == old(cache).disk_view()[b],
{
    let mut data: Vec<u8> = Vec::new();
    data.push((v % 256) as u8);
    data.push(((v / 256) % 256) as u8);
    data.push(((v / 65536) % 256) as u8);
    data.push(((v / 16777216) % 256) as u8);
    proof {
        assert(data@ =~= u32_bytes(v as int));
    }
    cache.modify_block_range(block_id, offset, &data);
    proof {
        lemma_u32_round_trip(v as int);
        let nb = cache.disk_view()[block_id as int];
        assert(nb[offset as int] == u32_bytes(v as int)[0]);
        assert(nb[offset + 1] == u32_bytes(v as int)[1]);
        assert(nb[offset + 2] == u32_bytes(v as int)[2]);
        assert(nb[offset + 3] == u32_bytes(v as int)[3]);
    }
}

} // verus!
