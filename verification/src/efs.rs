//! The filesystem: on-disk layout and block/inode allocation.
//!
//! A disk is laid out as `[ superblock | inode bitmap | inode area |
//! data bitmap | data area ]` in units of 512-byte blocks.  The inode
//! area is sized so that the inode bitmap exactly covers it.  Inode
//! numbers and data blocks are allocated from the two independent
//! bitmaps.
//!
//! The well-formedness predicate `inode_ok` ties an inode's block
//! pointers to the layout: every owned block (data, indirect-1,
//! indirect-2 and its groups) lies in the data area, is marked in the
//! data bitmap and is distinct from every other owned block.  Those
//! facts make the byte-exact file contracts of the inode operations
//! possible.

use vstd::prelude::*;

use crate::bitmap::Bitmap;
use crate::block_cache::BlockCacheManager;
use crate::block_dev::{zero_block, MemoryDisk, BLOCK_SZ};
use crate::layout::{read_u32, u32_le, write_u32, EFS_MAGIC, MAX_DATA_BLOCKS, TYPE_DIR};

verus! {

broadcast use crate::block_cache::BlockCacheManager::lemma_disk_view_len, crate::block_cache::BlockCacheManager::lemma_disk_view_block_len;

/// Data blocks a file of `size` bytes occupies.
pub open spec fn blocks_for(size: int) -> int {
    (size + 511) / 512
}

/// Indirect-1 group blocks hanging off the indirect-2 block for a file
/// of `n` data blocks.
pub open spec fn groups_for(n: int) -> int {
    if n <= 156 {
        0
    } else {
        (n - 156 + 127) / 128
    }
}

/// Number of blocks an inode with `n` data blocks owns, bookkeeping
/// included.
pub open spec fn owned_count(n: int) -> int {
    n + (if n > 28 {
        1int
    } else {
        0int
    }) + (if n > 156 {
        1 + groups_for(n)
    } else {
        0int
    })
}

/// The file size stored in the inode record at `(b, o)`.
pub open spec fn ino_size(d: Seq<Seq<u8>>, b: int, o: int) -> int {
    u32_le(d[b], o)
}

/// The type word of the inode record at `(b, o)`.
pub open spec fn ino_type(d: Seq<Seq<u8>>, b: int, o: int) -> int {
    u32_le(d[b], o + 124)
}

/// The indirect-1 pointer of the inode record at `(b, o)`.
pub open spec fn ino_ind1(d: Seq<Seq<u8>>, b: int, o: int) -> int {
    u32_le(d[b], o + 116)
}

/// The indirect-2 pointer of the inode record at `(b, o)`.
pub open spec fn ino_ind2(d: Seq<Seq<u8>>, b: int, o: int) -> int {
    u32_le(d[b], o + 120)
}

/// Direct pointer `i` of the inode record at `(b, o)`.
pub open spec fn ino_direct(d: Seq<Seq<u8>>, b: int, o: int, i: int) -> int {
    u32_le(d[b], o + 4 + 4 * i)
}

/// Pointer `g` of the index block `blk`.
pub open spec fn ind_entry(d: Seq<Seq<u8>>, blk: int, g: int) -> int {
    u32_le(d[blk], 4 * g)
}

/// The id of the `n`-th data block of the inode record at `(b, o)`,
/// resolved through the direct, indirect-1 and indirect-2 tiers.
pub open spec fn nth_block(d: Seq<Seq<u8>>, b: int, o: int, n: int) -> int {
    if n < 28 {
        ino_direct(d, b, o, n)
    } else if n < 156 {
        ind_entry(d, ino_ind1(d, b, o), n - 28)
    } else {
        ind_entry(d, ind_entry(d, ino_ind2(d, b, o), (n - 156) / 128), (n - 156) % 128)
    }
}

/// Owned block `t` of the inode record at `(b, o)` holding `n` data
/// blocks: first the data blocks, then the indirect-1 pointer, the
/// indirect-2 pointer, and the indirect-2 groups.
pub open spec fn owned_block(d: Seq<Seq<u8>>, b: int, o: int, n: int, t: int) -> int {
    if t < n {
        nth_block(d, b, o, t)
    } else if t == n {
        ino_ind1(d, b, o)
    } else if t == n + 1 {
        ino_ind2(d, b, o)
    } else {
        ind_entry(d, ino_ind2(d, b, o), t - n - 2)
    }
}

/// The bytes of the file stored in the inode record at `(b, o)`.
pub open spec fn file_bytes(d: Seq<Seq<u8>>, b: int, o: int) -> Seq<u8> {
    Seq::new(ino_size(d, b, o) as nat, |j: int| d[nth_block(d, b, o, j / 512)][j % 512])
}

/// The filesystem: the cached device plus the two bitmaps and the
/// start blocks of the inode and data areas.
pub struct EasyFileSystem {
    pub cache: BlockCacheManager,
    pub inode_bitmap: Bitmap,
    pub data_bitmap: Bitmap,
    pub inode_area_start_block: usize,
    pub data_area_start_block: usize,
}

impl EasyFileSystem {
    /// The logical disk.
    pub open spec fn disk(self) -> Seq<Seq<u8>> {
        self.cache.disk_view()
    }

    /// Total number of blocks.
    pub open spec fn total_spec(self) -> int {
        self.cache.spec_total_blocks()
    }

    /// Number of blocks in the data area.
    pub open spec fn data_area_blocks(self) -> int {
        self.total_spec() - self.data_area_start_block
    }

    /// Number of inodes the inode bitmap can name.
    pub open spec fn inode_capacity(self) -> int {
        self.inode_bitmap.blocks * 4096
    }

    /// The regions stand in order, the inode bitmap exactly covers the
    /// inode area, and the data bitmap covers the data area.
    pub open spec fn wf(self) -> bool {
        &&& self.cache.wf()
        &&& self.inode_bitmap.start_block_id == 1
        &&& 1 <= self.inode_bitmap.blocks
        &&& self.inode_area_start_block == 1 + self.inode_bitmap.blocks
        &&& self.data_bitmap.start_block_id == self.inode_area_start_block
            + self.inode_bitmap.blocks * 1024
        &&& 1 <= self.data_bitmap.blocks
        &&& self.data_area_start_block == self.data_bitmap.start_block_id
            + self.data_bitmap.blocks
        &&& self.data_area_start_block <= self.total_spec()
        &&& self.data_area_blocks() <= self.data_bitmap.blocks * 4096
        &&& self.total_spec() < 0x1_0000_0000
        &&& self.inode_bitmap.wf(self.total_spec())
        &&& self.data_bitmap.wf(self.total_spec())
    }

    /// The layout fields, bitmaps included, of two filesystem values
    /// agree; only the cache differs.
    pub open spec fn same_layout(self, other: EasyFileSystem) -> bool {
        &&& self.inode_bitmap == other.inode_bitmap
        &&& self.data_bitmap == other.data_bitmap
        &&& self.inode_area_start_block == other.inode_area_start_block
        &&& self.data_area_start_block == other.data_area_start_block
        &&& self.total_spec() == other.total_spec()
    }

    /// The block holding inode record `i`.
    pub open spec fn spec_inode_block(self, i: int) -> int {
        self.inode_area_start_block + i / 4
    }

    /// The byte offset of inode record `i` within its block.
    pub open spec fn spec_inode_offset(i: int) -> int {
        (i % 4) * 128
    }

    /// The block pointers of the inode record at `(b, o)`, holding `n`
    /// data blocks, are in the data area, marked in the data bitmap,
    /// and pairwise distinct.
    pub open spec fn inode_ok(self, d: Seq<Seq<u8>>, b: int, o: int, n: int) -> bool {
        &&& self.inode_area_start_block <= b < self.data_bitmap.start_block_id
        &&& 0 <= o && o + 128 <= 512 && o % 128 == 0
        &&& 0 <= n <= MAX_DATA_BLOCKS
        &&& forall|t: int|
            0 <= t < owned_count(n) ==> self.data_area_start_block <= #[trigger] owned_block(
                d,
                b,
                o,
                n,
                t,
            ) < self.total_spec()
        &&& forall|t: int|
            0 <= t < owned_count(n) ==> self.data_bitmap.spec_bit(
                d,
                #[trigger] owned_block(d, b, o, n, t) - self.data_area_start_block,
            )
        &&& forall|t1: int, t2: int|
            0 <= t1 < t2 < owned_count(n) ==> owned_block(d, b, o, n, t1) != owned_block(
                d,
                b,
                o,
                n,
                t2,
            )
    }

    /// Position of inode record `inode_id`: its block and the byte
    /// offset inside the block.
    pub fn get_disk_inode_pos(&self, inode_id: u32) -> (r: (usize, usize))
        requires
            self.wf(),
            inode_id < self.inode_capacity(),
        ensures
            r.0 == self.spec_inode_block(inode_id as int),
            r.1 == Self::spec_inode_offset(inode_id as int),
            self.inode_area_start_block <= r.0 < self.data_bitmap.start_block_id,
            r.1 + 128 <= 512 && r.1 % 128 == 0,
    {
        let i = inode_id as usize;
        proof {
            assert(i / 4 < self.inode_bitmap.blocks * 1024) by (nonlinear_arith)
                requires
                    i < self.inode_bitmap.blocks * 4096,
            ;
            assert((i % 4) * 128 + 128 <= 512 && ((i % 4) * 128) % 128 == 0) by (nonlinear_arith);
        }
        (self.inode_area_start_block + i / 4, (i % 4) * 128)
    }

    /// Allocate the lowest free data block: its data-bitmap bit flips
    /// from clear to set, every other bit and every block outside the
    /// data bitmap keep their value.
    pub fn alloc_data(&mut self) -> (blk: usize)
        requires
            old(self).wf(),
            old(self).data_bitmap.free_below(old(self).disk(), old(self).data_area_blocks()) >= 1,
        ensures
            final(self).wf(),
            final(self).same_layout(*old(self)),
            old(self).data_area_start_block <= blk < old(self).total_spec(),
            !old(self).data_bitmap.spec_bit(
                old(self).disk(),
                blk - old(self).data_area_start_block,
            ),
            old(self).data_bitmap.all_set_below(
                old(self).disk(),
                blk - old(self).data_area_start_block,
            ),
            final(self).data_bitmap.spec_bit(
                final(self).disk(),
                blk - old(self).data_area_start_block,
            ),
            forall|j: int|
                0 <= j < old(self).data_bitmap.blocks * 4096 && j != blk - old(
                    self,
                ).data_area_start_block ==> final(self).data_bitmap.spec_bit(final(self).disk(), j)
                    == old(self).data_bitmap.spec_bit(old(self).disk(), j),
            forall|b: int|
                0 <= b < old(self).total_spec() && !(old(self).data_bitmap.start_block_id <= b
                    < old(self).data_area_start_block) ==> final(self).disk()[b] == old(
                    self,
                ).disk()[b],
            final(self).data_bitmap.free_below(final(self).disk(), final(self).data_area_blocks())
                == old(self).data_bitmap.free_below(
                old(self).disk(),
                old(self).data_area_blocks(),
            ) - 1,
    {
        let ghost d0 = self.disk();
        let total = self.cache.total_blocks();
        let opt = self.data_bitmap.allocate(&mut self.cache);
        match opt {
            Some(bit) => {
                proof {
                    let da = old(self).data_area_blocks();
                    old(self).data_bitmap.lemma_free_below_pos(d0, da);
                    let w = choose|j: int|
                        0 <= j < da && !old(self).data_bitmap.spec_bit(d0, j);
                    assert(bit < da) by {
                        if bit as int > w {
                            assert(old(self).data_bitmap.spec_bit(d0, w));
                        }
                    };
                    old(self).data_bitmap.lemma_free_below_set(
                        d0,
                        self.disk(),
                        bit as int,
                        da,
                    );
                }
                let blk = self.data_area_start_block + bit;
                blk
            },
            None => {
                proof {
                    let da = old(self).data_area_blocks();
                    old(self).data_bitmap.lemma_free_below_pos(d0, da);
                    let w = choose|j: int|
                        0 <= j < da && !old(self).data_bitmap.spec_bit(d0, j);
                    assert(old(self).data_bitmap.spec_bit(d0, w));
                    assert(false);
                }
                0
            },
        }
    }

    /// Return data block `blk` to the bitmap.  Its bit must be set; it
    /// flips to clear and everything else keeps its value.
    pub fn dealloc_data(&mut self, blk: usize)
        requires
            old(self).wf(),
            old(self).data_area_start_block <= blk < old(self).total_spec(),
            old(self).data_bitmap.spec_bit(
                old(self).disk(),
                blk - old(self).data_area_start_block,
            ),
        ensures
            final(self).wf(),
            final(self).same_layout(*old(self)),
            !final(self).data_bitmap.spec_bit(
                final(self).disk(),
                blk - old(self).data_area_start_block,
            ),
            forall|j: int|
                0 <= j < old(self).data_bitmap.blocks * 4096 && j != blk - old(
                    self,
                ).data_area_start_block ==> final(self).data_bitmap.spec_bit(final(self).disk(), j)
                    == old(self).data_bitmap.spec_bit(old(self).disk(), j),
            forall|b: int|
                0 <= b < old(self).total_spec() && !(old(self).data_bitmap.start_block_id <= b
                    < old(self).data_area_start_block) ==> final(self).disk()[b] == old(
                    self,
                ).disk()[b],
            final(self).data_bitmap.free_below(final(self).disk(), final(self).data_area_blocks())
                == old(self).data_bitmap.free_below(
                old(self).disk(),
                old(self).data_area_blocks(),
            ) + 1,
    {
        let ghost d0 = self.disk();
        let bit = blk - self.data_area_start_block;
        proof {
            assert(bit < old(self).data_bitmap.blocks * 4096);
        }
        self.data_bitmap.dealloc(&mut self.cache, bit);
        proof {
            old(self).data_bitmap.lemma_free_below_set(
                self.disk(),
                d0,
                bit as int,
                old(self).data_area_blocks(),
            );
        }
    }

    /// Allocate the lowest free inode number: its inode-bitmap bit
    /// flips from clear to set, every other bit and every block outside
    /// the inode bitmap keep their value.
    pub fn alloc_inode(&mut self) -> (id: u32)
        requires
            old(self).wf(),
            old(self).inode_bitmap.free_below(old(self).disk(), old(self).inode_capacity()) >= 1,
            old(self).inode_capacity() < 0x1_0000_0000,
        ensures
            final(self).wf(),
            final(self).same_layout(*old(self)),
            id < old(self).inode_capacity(),
            !old(self).inode_bitmap.spec_bit(old(self).disk(), id as int),
            old(self).inode_bitmap.all_set_below(old(self).disk(), id as int),
            final(self).inode_bitmap.spec_bit(final(self).disk(), id as int),
            forall|j: int|
                0 <= j < old(self).inode_capacity() && j != id
                    ==> final(self).inode_bitmap.spec_bit(final(self).disk(), j) == old(
                    self,
                ).inode_bitmap.spec_bit(old(self).disk(), j),
            forall|b: int|
                0 <= b < old(self).total_spec() && !(1 <= b < old(self).inode_area_start_block)
                    ==> final(self).disk()[b] == old(self).disk()[b],
            final(self).inode_bitmap.free_below(final(self).disk(), final(self).inode_capacity())
                == old(self).inode_bitmap.free_below(
                old(self).disk(),
                old(self).inode_capacity(),
            ) - 1,
    {
        let ghost d0 = self.disk();
        let opt = self.inode_bitmap.allocate(&mut self.cache);
        match opt {
            Some(bit) => {
                proof {
                    let cap = old(self).inode_capacity();
                    old(self).inode_bitmap.lemma_free_below_pos(d0, cap);
                    let w = choose|j: int|
                        0 <= j < cap && !old(self).inode_bitmap.spec_bit(d0, j);
                    assert(bit < cap) by {
                        if bit as int > w {
                            assert(old(self).inode_bitmap.spec_bit(d0, w));
                        }
                    };
                    old(self).inode_bitmap.lemma_free_below_set(
                        d0,
                        self.disk(),
                        bit as int,
                        cap,
                    );
                }
                bit as u32
            },
            None => {
                proof {
                    let cap = old(self).inode_capacity();
                    old(self).inode_bitmap.lemma_free_below_pos(d0, cap);
                    let w = choose|j: int|
                        0 <= j < cap && !old(self).inode_bitmap.spec_bit(d0, j);
                    assert(old(self).inode_bitmap.spec_bit(d0, w));
                    assert(false);
                }
                0
            },
        }
    }
}

/// A zero byte has no set bits.
proof fn lemma_zero_byte_bit(k: u8)
    by (bit_vector)
    requires
        k < 8,
    ensures
        0u8 >> k & 1 == 0,
{
}

/// A bitmap over all-zero blocks has every bit clear.
proof fn lemma_zero_region_bit(bm: Bitmap, d: Seq<Seq<u8>>, j: int)
    requires
        0 <= j < bm.blocks * 4096,
        forall|x: int, y: int|
            bm.start_block_id <= x < bm.start_block_id + bm.blocks && 0 <= y < 512 ==> d[x][y]
                == 0u8,
    ensures
        !bm.spec_bit(d, j),
{
    reveal(Bitmap::spec_bit);
    assert(0 <= j / 4096 < bm.blocks && 0 <= (j % 4096) / 8 < 512 && 0 <= j % 8 < 8)
        by (nonlinear_arith)
        requires
            0 <= j < bm.blocks * 4096,
    ;
    assert(d[bm.start_block_id + j / 4096][(j % 4096) / 8] == 0u8);
    lemma_zero_byte_bit((j % 8) as u8);
}

/// The superblock words of image `d`: magic, total blocks, and the
/// four region sizes, in blocks.
pub open spec fn sb_magic(d: Seq<Seq<u8>>) -> int {
    u32_le(d[0], 0)
}

/// Total-blocks word of the superblock.
pub open spec fn sb_total(d: Seq<Seq<u8>>) -> int {
    u32_le(d[0], 4)
}

/// Inode-bitmap-blocks word of the superblock.
pub open spec fn sb_ib(d: Seq<Seq<u8>>) -> int {
    u32_le(d[0], 8)
}

/// Inode-area-blocks word of the superblock.
pub open spec fn sb_ia(d: Seq<Seq<u8>>) -> int {
    u32_le(d[0], 12)
}

/// Data-bitmap-blocks word of the superblock.
pub open spec fn sb_db(d: Seq<Seq<u8>>) -> int {
    u32_le(d[0], 16)
}

/// Data-area-blocks word of the superblock.
pub open spec fn sb_da(d: Seq<Seq<u8>>) -> int {
    u32_le(d[0], 20)
}

/// A superblock that `open` accepts: the magic number matches and the
/// recorded region sizes describe this very image consistently.
pub open spec fn sb_ok(d: Seq<Seq<u8>>) -> bool {
    &&& d.len() >= 1
    &&& sb_magic(d) == EFS_MAGIC
    &&& sb_total(d) == d.len()
    &&& 1 <= sb_ib(d)
    &&& sb_ia(d) == sb_ib(d) * 1024
    &&& 1 <= sb_db(d)
    &&& 1 + sb_ib(d) + sb_ia(d) + sb_db(d) + sb_da(d) == sb_total(d)
    &&& sb_da(d) <= sb_db(d) * 4096
    &&& sb_ib(d) * 4096 < 0x1_0000_0000
    &&& sb_db(d) * 4096 <= usize::MAX
}


/// Zero every block of the device.
fn zero_device(disk: MemoryDisk) -> (r: MemoryDisk)
    requires
        disk.wf(),
    ensures
        r.wf(),
        r.view_blocks().len() == disk.view_blocks().len(),
        forall|b: int, j: int|
            0 <= b < r.view_blocks().len() && 0 <= j < BLOCK_SZ ==> r.view_blocks()[b][j] == 0u8,
{
    let mut disk = disk;
    let total = disk.total_blocks();
    let z = zero_block();
    let mut i: usize = 0;
    while i < total
        invariant
            disk.wf(),
            disk.view_blocks().len() == total,
            i <= total,
            z@.len() == BLOCK_SZ,
            forall|j: int| 0 <= j < z@.len() ==> z@[j] == 0u8,
            forall|b: int, j: int|
                0 <= b < i && 0 <= j < BLOCK_SZ ==> disk.view_blocks()[b][j] == 0u8,
        decreases total - i,
    {
        disk.write_block(i, &z);
        i = i + 1;
    }
    disk
}

/// Write the six superblock words into block 0; nothing else of the
/// logical disk changes.
fn write_super_block(
    cache: &mut BlockCacheManager,
    total_blocks: u32,
    ib: u32,
    ia: u32,
    db: u32,
    da: u32,
)
    requires
        old(cache).wf(),
        old(cache).spec_total_blocks() >= 1,
    ensures
        final(cache).wf(),
        final(cache).spec_total_blocks() == old(cache).spec_total_blocks(),
        sb_magic(final(cache).disk_view()) == EFS_MAGIC,
        sb_total(final(cache).disk_view()) == total_blocks,
        sb_ib(final(cache).disk_view()) == ib,
        sb_ia(final(cache).disk_view()) == ia,
        sb_db(final(cache).disk_view()) == db,
        sb_da(final(cache).disk_view()) == da,
        forall|b: int|
            1 <= b < old(cache).spec_total_blocks() ==> (#[trigger] final(cache).disk_view()[b])
                == old(cache).disk_view()[b],
{
    write_u32(cache, 0, 0, EFS_MAGIC);
    write_u32(cache, 0, 4, total_blocks);
    write_u32(cache, 0, 8, ib);
    write_u32(cache, 0, 12, ia);
    write_u32(cache, 0, 16, db);
    write_u32(cache, 0, 20, da);
}

impl EasyFileSystem {
    /// Build a fresh filesystem on `disk`: zero every block, write the
    /// superblock, and set up inode 0 as the empty root directory.
    #[verifier::rlimit(100)]
    pub fn create(disk: MemoryDisk, total_blocks: u32, inode_bitmap_blocks: u32) -> (r:
        EasyFileSystem)
        requires
            disk.wf(),
            disk.view_blocks().len() == total_blocks,
            1 <= inode_bitmap_blocks,
            1 + inode_bitmap_blocks + inode_bitmap_blocks * 1024 + 2 <= total_blocks,
            inode_bitmap_blocks * 4096 < 0x1_0000_0000,
            total_blocks * 4096 <= usize::MAX,
        ensures
            r.wf(),
            r.total_spec() == total_blocks,
            r.inode_bitmap.blocks == inode_bitmap_blocks,
            // the exact layout of spec-sized regions
            r.inode_area_start_block == 1 + inode_bitmap_blocks,
            r.data_bitmap.blocks == (total_blocks - 1 - inode_bitmap_blocks - 1024
                * inode_bitmap_blocks + 4096) / 4097,
            r.data_area_start_block == 1 + inode_bitmap_blocks + 1024 * inode_bitmap_blocks
                + r.data_bitmap.blocks,
            sb_ok(r.disk()),
            r.inode_ok(r.disk(), r.spec_inode_block(0), 0, 0),
            ino_size(r.disk(), r.spec_inode_block(0), 0) == 0,
            ino_type(r.disk(), r.spec_inode_block(0), 0) == TYPE_DIR,
            r.inode_bitmap.spec_bit(r.disk(), 0),
            forall|j: int|
                1 <= j < r.inode_capacity() ==> !r.inode_bitmap.spec_bit(r.disk(), j),
            forall|j: int| 0 <= j < r.data_area_blocks() ==> !r.data_bitmap.spec_bit(r.disk(), j),
            r.data_bitmap.free_below(r.disk(), r.data_area_blocks()) == r.data_area_blocks(),
            r.inode_bitmap.free_below(r.disk(), r.inode_capacity()) == r.inode_capacity() - 1,
    {
        let total = total_blocks as usize;
        let ib = inode_bitmap_blocks as usize;
        let inode_area = ib * 1024;
        proof {
            assert(1 + ib + inode_area + 2 <= total);
        }
        let data_total = total - 1 - ib - inode_area;
        let db = (data_total + 4096) / 4097;
        let da = data_total - db;
        proof {
            assert(1 <= db && db <= data_total - 1 && da <= db * 4096) by (nonlinear_arith)
                requires
                    data_total >= 2,
                    db == (data_total + 4096) / 4097,
                    da == data_total - db,
            ;
        }
        let disk = zero_device(disk);
        let cache = BlockCacheManager::new(disk);
        let mut fs = EasyFileSystem {
            cache,
            inode_bitmap: Bitmap::new(1, ib),
            data_bitmap: Bitmap::new(1 + ib + inode_area, db),
            inode_area_start_block: 1 + ib,
            data_area_start_block: 1 + ib + inode_area + db,
        };
        proof {
            assert(fs.wf());
        }
        write_super_block(
            &mut fs.cache,
            total_blocks,
            inode_bitmap_blocks,
            inode_area as u32,
            db as u32,
            da as u32,
        );
        proof {
            assert(forall|b: int, j: int|
                1 <= b < total && 0 <= j < BLOCK_SZ ==> fs.disk()[b][j] == 0u8);
            assert forall|j: int|
                0 <= j < fs.inode_bitmap.blocks * 4096 implies !fs.inode_bitmap.spec_bit(
                fs.disk(),
                j,
            ) by {
                assert(0 <= j / 4096 < fs.inode_bitmap.blocks) by (nonlinear_arith)
                    requires
                        0 <= j < fs.inode_bitmap.blocks * 4096,
                ;
                lemma_zero_region_bit(fs.inode_bitmap, fs.disk(), j);
            };
            assert forall|j: int|
                0 <= j < fs.data_bitmap.blocks * 4096 implies !fs.data_bitmap.spec_bit(
                fs.disk(),
                j,
            ) by {
                lemma_zero_region_bit(fs.data_bitmap, fs.disk(), j);
            };
        }
        let fs = Self::init_root(fs);
        fs
    }


    /// Mark inode 0 allocated and type it as the empty root directory.
    /// The filesystem must be freshly laid out: both bitmaps all clear
    /// and the inode area still zero.
    fn init_root(fs: EasyFileSystem) -> (r: EasyFileSystem)
        requires
            fs.wf(),
            forall|j: int|
                0 <= j < fs.inode_capacity() ==> !fs.inode_bitmap.spec_bit(fs.disk(), j),
            forall|j: int|
                0 <= j < fs.data_bitmap.blocks * 4096 ==> !fs.data_bitmap.spec_bit(fs.disk(), j),
            forall|x: int, y: int|
                fs.inode_area_start_block <= x < fs.data_bitmap.start_block_id && 0 <= y < 512
                    ==> fs.disk()[x][y] == 0u8,
            fs.inode_capacity() < 0x1_0000_0000,
        ensures
            r.wf(),
            r.same_layout(fs),
            r.inode_bitmap == fs.inode_bitmap,
            r.data_bitmap == fs.data_bitmap,
            r.inode_area_start_block == fs.inode_area_start_block,
            r.data_area_start_block == fs.data_area_start_block,
            r.disk()[0] == fs.disk()[0],
            r.inode_ok(r.disk(), r.spec_inode_block(0), 0, 0),
            ino_size(r.disk(), r.spec_inode_block(0), 0) == 0,
            ino_type(r.disk(), r.spec_inode_block(0), 0) == TYPE_DIR,
            r.inode_bitmap.spec_bit(r.disk(), 0),
            forall|j: int|
                1 <= j < r.inode_capacity() ==> !r.inode_bitmap.spec_bit(r.disk(), j),
            forall|j: int| 0 <= j < r.data_area_blocks() ==> !r.data_bitmap.spec_bit(r.disk(), j),
            r.data_bitmap.free_below(r.disk(), r.data_area_blocks()) == r.data_area_blocks(),
            r.inode_bitmap.free_below(r.disk(), r.inode_capacity()) == r.inode_capacity() - 1,
    {
        let mut fs = fs;
        let ghost pre_alloc = fs;
        proof {
            fs.inode_bitmap.lemma_free_below_all_clear(fs.disk(), fs.inode_capacity());
        }
        let root = fs.alloc_inode();
        assert(root == 0) by {
            if root > 0 {
                assert(pre_alloc.inode_bitmap.spec_bit(pre_alloc.disk(), 0));
            }
        };
        let ghost post_alloc = fs;
        let (rb, ro) = fs.get_disk_inode_pos(root);
        write_u32(&mut fs.cache, rb, ro + 124, TYPE_DIR);
        proof {
            let d = fs.disk();
            let b = fs.spec_inode_block(0);
            let cap = fs.inode_capacity();
            // the type-word write touched only the root inode block,
            // which lies outside both bitmap regions
            assert forall|j: int| 0 <= j < cap implies #[trigger] fs.inode_bitmap.spec_bit(d, j)
                == post_alloc.inode_bitmap.spec_bit(post_alloc.disk(), j) by {
                assert(0 <= j / 4096 < fs.inode_bitmap.blocks) by (nonlinear_arith)
                    requires
                        0 <= j < fs.inode_bitmap.blocks * 4096,
                ;
                assert(d[1 + j / 4096] == post_alloc.disk()[1 + j / 4096]);
                fs.inode_bitmap.lemma_bit_same_block(post_alloc.disk(), d, j);
            };
            // neither the inode allocation nor the type write touched
            // the data bitmap
            assert forall|j: int|
                0 <= j < fs.data_bitmap.blocks * 4096 implies !(#[trigger] fs.data_bitmap.spec_bit(
                d,
                j,
            )) by {
                assert(0 <= j / 4096 < fs.data_bitmap.blocks) by (nonlinear_arith)
                    requires
                        0 <= j < fs.data_bitmap.blocks * 4096,
                ;
                let x = fs.data_bitmap.start_block_id + j / 4096;
                assert(fs.data_bitmap == pre_alloc.data_bitmap);
                assert(0 <= x < fs.total_spec());
                assert(x >= fs.inode_area_start_block);
                assert(d[x] == post_alloc.disk()[x]);
                assert(post_alloc.disk()[x] == pre_alloc.disk()[x]);
                assert(!pre_alloc.data_bitmap.spec_bit(pre_alloc.disk(), j));
                fs.data_bitmap.lemma_bit_same_block(pre_alloc.disk(), d, j);
            };
            fs.inode_bitmap.lemma_free_below_same(post_alloc.disk(), d, cap);
            fs.data_bitmap.lemma_free_below_all_clear(d, fs.data_area_blocks());
            // size word still zero: the root block changed only at the
            // type word
            assert(ino_size(d, b, 0) == 0);
            assert(owned_count(0) == 0);
            assert(fs.inode_ok(d, b, 0, 0));
        }
        fs
    }

    /// Open the filesystem on `disk`.  Succeeds exactly when the
    /// superblock carries the magic number and a self-consistent
    /// layout.
    #[verifier::rlimit(100)]
    pub fn open(disk: MemoryDisk) -> (r: Option<EasyFileSystem>)
        requires
            disk.wf(),
            disk.view_blocks().len() >= 1,
        ensures
            r is Some <==> sb_ok(disk.view_blocks()),
            r matches Some(fs) ==> {
                &&& fs.wf()
                &&& fs.disk() == disk.view_blocks()
                &&& fs.total_spec() == disk.view_blocks().len()
                &&& fs.inode_bitmap.blocks == sb_ib(disk.view_blocks())
                &&& fs.data_bitmap.blocks == sb_db(disk.view_blocks())
            },
    {
        let ghost d0 = disk.view_blocks();
        let total = disk.total_blocks();
        let mut cache = BlockCacheManager::new(disk);
        let magic = read_u32(&mut cache, 0, 0);
        let tb = read_u32(&mut cache, 0, 4);
        let ib = read_u32(&mut cache, 0, 8);
        let ia = read_u32(&mut cache, 0, 12);
        let db = read_u32(&mut cache, 0, 16);
        let da = read_u32(&mut cache, 0, 20);
        if magic != EFS_MAGIC {
            return None;
        }
        if tb as usize != total || ib < 1 || db < 1 {
            return None;
        }
        if ia as u64 != ib as u64 * 1024 {
            return None;
        }
        if ib > 1048575 {
            proof {
                if sb_ok(d0) {
                    assert(sb_ib(d0) <= 1048575) by (nonlinear_arith)
                        requires
                            sb_ib(d0) * 4096 < 0x1_0000_0000,
                            0 <= sb_ib(d0),
                    ;
                }
            }
            return None;
        }
        let used: u64 = 1 + ib as u64 + ia as u64 + db as u64;
        if used > total as u64 || total as u64 - used != da as u64 {
            return None;
        }
        if da as u64 > db as u64 * 4096 {
            return None;
        }
        if db as u64 * 4096 > usize::MAX as u64 {
            return None;
        }
        let ibu = ib as usize;
        let iau = ia as usize;
        let dbu = db as usize;
        proof {
            assert(ibu * 4096 < 0x1_0000_0000) by (nonlinear_arith)
                requires
                    ibu <= 1048575,
            ;
            assert(sb_ok(d0));
        }
        Some(
            EasyFileSystem {
                cache,
                inode_bitmap: Bitmap::new(1, ibu),
                data_bitmap: Bitmap::new(1 + ibu + iau, dbu),
                inode_area_start_block: 1 + ibu,
                data_area_start_block: 1 + ibu + iau + dbu,
            },
        )
    }
}

} // verus!
