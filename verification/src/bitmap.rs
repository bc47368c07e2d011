//! The on-disk bit allocator.
//!
//! A bitmap lives across `blocks` contiguous cached blocks starting at
//! `start_block_id`; bits are packed little-endian, so bit `i` of a
//! block is bit `i % 8` of byte `i / 8`.  Allocation returns the lowest
//! clear bit, sets it and touches nothing else on the logical disk.

use vstd::prelude::*;

use crate::block_cache::BlockCacheManager;
use crate::block_dev::BLOCK_SZ;

verus! {

broadcast use crate::block_cache::BlockCacheManager::lemma_disk_view_len, crate::block_cache::BlockCacheManager::lemma_disk_view_block_len;

/// Number of bits in one bitmap block.
pub const BLOCK_BITS: usize = BLOCK_SZ * 8;

/// Bit `k` of byte `b`.
pub open spec fn u8_bit(b: u8, k: int) -> bool {
    (b >> (k as u8)) & 1 == 1
}

/// Bits `k` and everything but `k` after setting bit `k`.
proof fn lemma_set_bit(b: u8, k: u8, j: u8)
    by (bit_vector)
    requires
        k < 8,
        j < 8,
    ensures
        (b | (1u8 << k)) >> k & 1 == 1,
        j != k ==> ((b | (1u8 << k)) >> j & 1) == (b >> j & 1),
{
}

/// Bits `k` and everything but `k` after clearing bit `k`.
proof fn lemma_clear_bit(b: u8, k: u8, j: u8)
    by (bit_vector)
    requires
        k < 8,
        j < 8,
    ensures
        (b & !(1u8 << k)) >> k & 1 == 0,
        j != k ==> ((b & !(1u8 << k)) >> j & 1) == (b >> j & 1),
{
}

/// A byte with every bit set is exactly 0xff.
proof fn lemma_all_bits_set(b: u8)
    by (bit_vector)
    requires
        b >> 0 & 1 == 1,
        b >> 1 & 1 == 1,
        b >> 2 & 1 == 1,
        b >> 3 & 1 == 1,
        b >> 4 & 1 == 1,
        b >> 5 & 1 == 1,
        b >> 6 & 1 == 1,
        b >> 7 & 1 == 1,
    ensures
        b == 0xff,
{
}

/// Every bit of 0xff is set.
proof fn lemma_ff_bit(k: u8)
    by (bit_vector)
    requires
        k < 8,
    ensures
        0xffu8 >> k & 1 == 1,
{
}

/// Decompose a global bit index into block, byte-within-block and
/// bit-within-byte, and recompose it.
proof fn lemma_bit_decomp(bi: int, by: int, k: int)
    by (nonlinear_arith)
    requires
        0 <= bi,
        0 <= by < 512,
        0 <= k < 8,
    ensures
        (bi * 4096 + by * 8 + k) / 4096 == bi,
        ((bi * 4096 + by * 8 + k) % 4096) / 8 == by,
        (bi * 4096 + by * 8 + k) % 8 == k,
{
}

/// Decompose a global bit index into (block, 64-bit group, bit in
/// group), as the packed little-endian layout places it.
pub fn decomposition(bit: usize) -> (r: (usize, usize, usize))
    ensures
        r.0 == bit / BLOCK_BITS,
        r.1 == (bit % BLOCK_BITS) / 64,
        r.2 == bit % 64,
{
    let block_pos = bit / BLOCK_BITS;
    let rem = bit % BLOCK_BITS;
    proof {
        assert(bit % 64 == (bit % 4096) % 64) by (nonlinear_arith);
    }
    (block_pos, rem / 64, rem % 64)
}

/// A bit allocator over bitmap blocks `[start_block_id,
/// start_block_id + blocks)` of a cached disk.
pub struct Bitmap {
    pub start_block_id: usize,
    pub blocks: usize,
}

impl Bitmap {
    /// The bitmap range lies on the disk and its size has no overflow.
    pub open spec fn wf(self, total_blocks: int) -> bool {
        &&& self.start_block_id + self.blocks <= total_blocks
        &&& self.blocks * BLOCK_BITS <= usize::MAX
    }

    /// Bit `i` of the bitmap, as stored on the logical disk.
    #[verifier::opaque]
    pub open spec fn spec_bit(self, disk: Seq<Seq<u8>>, i: int) -> bool {
        u8_bit(disk[self.start_block_id + i / 4096][(i % 4096) / 8], i % 8)
    }

    /// All bits below `i` are set.
    pub open spec fn all_set_below(self, disk: Seq<Seq<u8>>, i: int) -> bool {
        forall|j: int| 0 <= j < i ==> self.spec_bit(disk, j)
    }

    /// A bitmap over `blocks` blocks starting at `start_block_id`.
    pub fn new(start_block_id: usize, blocks: usize) -> (r: Bitmap)
        ensures
            r.start_block_id == start_block_id,
            r.blocks == blocks,
    {
        Bitmap { start_block_id, blocks }
    }

    /// The number of bits this bitmap manages.
    pub fn maximum(&self) -> (r: usize)
        requires
            self.blocks * BLOCK_BITS <= usize::MAX,
        ensures
            r == self.blocks * BLOCK_BITS,
    {
        self.blocks * BLOCK_BITS
    }

    /// Allocate the lowest clear bit: scan blocks in order, within a
    /// block scan bytes, set the first clear bit and return its global
    /// index.  `None` when every bit is set.
    pub fn allocate(&self, cache: &mut BlockCacheManager) -> (r: Option<usize>)
        requires
            old(cache).wf(),
            self.wf(old(cache).spec_total_blocks()),
        ensures
            final(cache).wf(),
            final(cache).spec_total_blocks() == old(cache).spec_total_blocks(),
            r matches Some(i) ==> {
                &&& i < self.blocks * BLOCK_BITS
                &&& !self.spec_bit(old(cache).disk_view(), i as int)
                &&& self.all_set_below(old(cache).disk_view(), i as int)
                &&& self.spec_bit(final(cache).disk_view(), i as int)
                &&& forall|j: int|
                    0 <= j < self.blocks * BLOCK_BITS && j != i
                        ==> self.spec_bit(final(cache).disk_view(), j) == self.spec_bit(
                        old(cache).disk_view(),
                        j,
                    )
                &&& forall|b: int|
                    0 <= b < old(cache).spec_total_blocks() && !(self.start_block_id <= b
                        < self.start_block_id + self.blocks) ==> final(cache).disk_view()[b]
                        == old(cache).disk_view()[b]
            },
            r is None ==> {
                &&& self.all_set_below(old(cache).disk_view(), (self.blocks * BLOCK_BITS) as int)
                &&& final(cache).disk_view() == old(cache).disk_view()
            },
    {
        proof {
            reveal(Bitmap::spec_bit);
        }
        let ghost d0 = old(cache).disk_view();
        let total = cache.total_blocks();
        let mut block_id: usize = 0;
        while block_id < self.blocks
            invariant
                cache.wf(),
                self.wf(cache.spec_total_blocks()),
                cache.spec_total_blocks() == old(cache).spec_total_blocks(),
                cache.spec_total_blocks() == total,
                cache.disk_view() == d0,
                d0 == old(cache).disk_view(),
                block_id <= self.blocks,
                self.all_set_below(d0, block_id as int * 4096),
            decreases self.blocks - block_id,
        {
            proof {
                assert(block_id * 4096 + 4096 <= self.blocks * 4096) by (nonlinear_arith)
                    requires block_id < self.blocks;
            }
            let bytes = cache.read_block_range(self.start_block_id + block_id, 0, BLOCK_SZ);
            let mut byte_idx: usize = 0;
            while byte_idx < BLOCK_SZ
                invariant
                    cache.wf(),
                    self.wf(cache.spec_total_blocks()),
                    cache.spec_total_blocks() == old(cache).spec_total_blocks(),
                    cache.spec_total_blocks() == total,
                    cache.disk_view() == d0,
                    d0 == old(cache).disk_view(),
                    block_id < self.blocks,
                    byte_idx <= BLOCK_SZ,
                    bytes@ == d0[self.start_block_id + block_id].subrange(0, BLOCK_SZ as int),
                    bytes@.len() == BLOCK_SZ,
                    self.all_set_below(d0, block_id as int * 4096 + byte_idx * 8),
                decreases BLOCK_SZ - byte_idx,
            {
                let b = bytes[byte_idx];
                proof {
                    reveal(Bitmap::spec_bit);
                    assert(b == d0[self.start_block_id + block_id][byte_idx as int]);
                }
                if b != 255 {
                    // find the lowest clear bit of this byte
                    let mut k: usize = 0;
                    while k < 8 && (b >> (k as u8)) & 1 == 1
                        invariant
                            k <= 8,
                            forall|j: int| 0 <= j < k ==> u8_bit(b, j),
                        decreases 8 - k,
                    {
                        k = k + 1;
                    }
                    if k == 8 {
                        proof {
                            assert(u8_bit(b, 0) && u8_bit(b, 1) && u8_bit(b, 2) && u8_bit(b, 3)
                                && u8_bit(b, 4) && u8_bit(b, 5) && u8_bit(b, 6) && u8_bit(b, 7));
                            lemma_all_bits_set(b);
                        }
                        // unreachable: the byte was not 0xff
                        assert(false);
                    }
                    assert(k < 8 && !u8_bit(b, k as int));
                    let bit: usize = block_id * 4096 + byte_idx * 8 + k;
                    proof {
                        reveal(Bitmap::spec_bit);
                        lemma_bit_decomp(block_id as int, byte_idx as int, k as int);
                        assert(bit < self.blocks * 4096) by (nonlinear_arith)
                            requires
                                block_id < self.blocks,
                                byte_idx < 512,
                                k < 8,
                                bit == block_id * 4096 + byte_idx * 8 + k,
                        ;
                        assert(!self.spec_bit(d0, bit as int));
                        // everything below bit is set
                        assert forall|j: int| 0 <= j < bit implies self.spec_bit(d0, j) by {
                            if j < block_id as int * 4096 + byte_idx * 8 {
                                assert(self.all_set_below(
                                    d0,
                                    block_id as int * 4096 + byte_idx * 8,
                                ));
                            } else {
                                let kk = j - (block_id as int * 4096 + byte_idx * 8);
                                lemma_bit_decomp(block_id as int, byte_idx as int, kk);
                                assert(u8_bit(b, kk));
                            }
                        };
                    }
                    let nb = b | (1u8 << (k as u8));
                    let mut data: Vec<u8> = Vec::new();
                    data.push(nb);
                    let ghost pre = *cache;
                    cache.modify_block_range(self.start_block_id + block_id, byte_idx, &data);
                    proof {
                        reveal(Bitmap::spec_bit);
                        let tb = self.start_block_id + block_id;
                        let d1 = cache.disk_view();
                        assert(d1[tb as int][byte_idx as int] == nb) by {
                            assert(d1[tb as int] == crate::block_dev::splice(
                                d0[tb as int],
                                byte_idx as int,
                                data@,
                            ));
                        };
                        assert(forall|j: int|
                            0 <= j < BLOCK_SZ && j != byte_idx ==> d1[tb as int][j]
                                == d0[tb as int][j]);
                        assert(forall|bb: int|
                            0 <= bb < cache.spec_total_blocks() && bb != tb ==> d1[bb] == d0[bb]);
                        // the freshly set bit
                        lemma_set_bit(b, k as u8, 0);
                        assert(self.spec_bit(d1, bit as int));
                        // all other bits unchanged
                        assert forall|j: int|
                            0 <= j < self.blocks * BLOCK_BITS && j != bit implies self.spec_bit(
                            d1,
                            j,
                        ) == self.spec_bit(d0, j) by {
                            let jb = self.start_block_id + j / 4096;
                            assert(0 <= j / 4096 < self.blocks) by (nonlinear_arith)
                                requires
                                    0 <= j < self.blocks * 4096,
                            ;
                            if jb != tb {
                                assert(d1[jb] == d0[jb]);
                            } else {
                                if (j % 4096) / 8 != byte_idx as int {
                                    assert(d1[jb][(j % 4096) / 8] == d0[jb][(j % 4096) / 8]) by {
                                        assert(0 <= (j % 4096) / 8 < 512);
                                    };
                                } else {
                                    // same byte, different bit
                                    assert(j % 8 != k as int) by {
                                        lemma_bit_decomp(
                                            block_id as int,
                                            byte_idx as int,
                                            j % 8,
                                        );
                                        assert(j / 4096 == block_id as int) by (nonlinear_arith)
                                            requires
                                                jb == tb,
                                                jb == self.start_block_id + j / 4096,
                                                tb == self.start_block_id + block_id,
                                        ;
                                        assert(j == block_id as int * 4096 + byte_idx * 8 + j % 8)
                                            by (nonlinear_arith)
                                            requires
                                                j / 4096 == block_id as int,
                                                (j % 4096) / 8 == byte_idx as int,
                                        ;
                                    };
                                    lemma_set_bit(b, k as u8, (j % 8) as u8);
                                }
                            }
                        };
                    }
                    return Some(bit);
                }
                proof {
                    reveal(Bitmap::spec_bit);
                    lemma_ff_bit(0);
                    assert forall|j: int|
                        0 <= j < block_id as int * 4096 + (byte_idx + 1) * 8 implies self.spec_bit(
                        d0,
                        j,
                    ) by {
                        if j < block_id as int * 4096 + byte_idx * 8 {
                        } else {
                            let kk = j - (block_id as int * 4096 + byte_idx * 8);
                            lemma_bit_decomp(block_id as int, byte_idx as int, kk);
                            lemma_ff_bit(kk as u8);
                            assert(u8_bit(b, kk));
                        }
                    };
                }
                byte_idx = byte_idx + 1;
            }
            proof {
                assert((block_id + 1) as int * 4096 == block_id as int * 4096 + 512 * 8);
            }
            block_id = block_id + 1;
        }
        proof {
            assert(self.blocks as int * 4096 == self.blocks * BLOCK_BITS);
        }
        None
    }

    /// Clear bit `bit`.  It must be set: freeing a clear bit is a
    /// programmer error, excluded here by precondition.
    pub fn dealloc(&self, cache: &mut BlockCacheManager, bit: usize)
        requires
            old(cache).wf(),
            self.wf(old(cache).spec_total_blocks()),
            bit < self.blocks * BLOCK_BITS,
            self.spec_bit(old(cache).disk_view(), bit as int),
        ensures
            final(cache).wf(),
            final(cache).spec_total_blocks() == old(cache).spec_total_blocks(),
            !self.spec_bit(final(cache).disk_view(), bit as int),
            forall|j: int|
                0 <= j < self.blocks * BLOCK_BITS && j != bit ==> self.spec_bit(
                    final(cache).disk_view(),
                    j,
                ) == self.spec_bit(old(cache).disk_view(), j),
            forall|b: int|
                0 <= b < old(cache).spec_total_blocks() && !(self.start_block_id <= b
                    < self.start_block_id + self.blocks) ==> final(cache).disk_view()[b] == old(
                    cache,
                ).disk_view()[b],
    {
        proof {
            reveal(Bitmap::spec_bit);
        }
        let ghost d0 = old(cache).disk_view();
        let block_id = bit / BLOCK_BITS;
        let byte_idx = (bit % BLOCK_BITS) / 8;
        let k = bit % 8;
        let total = cache.total_blocks();
        proof {
            assert(block_id < self.blocks) by (nonlinear_arith)
                requires
                    bit < self.blocks * 4096,
                    block_id == bit / 4096,
            ;
            assert(bit % 4096 < 4096) by (nonlinear_arith);
            assert(byte_idx < 512);
            assert((bit % 4096) % 8 == bit % 8) by (nonlinear_arith);
        }
        let bytes = cache.read_block_range(self.start_block_id + block_id, byte_idx, 1);
        let b = bytes[0];
        proof {
            assert(b == d0[self.start_block_id + block_id][byte_idx as int]);
        }
        let nb = b & !(1u8 << (k as u8));
        let mut data: Vec<u8> = Vec::new();
        data.push(nb);
        cache.modify_block_range(self.start_block_id + block_id, byte_idx, &data);
        proof {
            reveal(Bitmap::spec_bit);
            let tb = self.start_block_id + block_id;
            let d1 = cache.disk_view();
            assert(d1[tb as int][byte_idx as int] == nb) by {
                assert(d1[tb as int] == crate::block_dev::splice(
                    d0[tb as int],
                    byte_idx as int,
                    data@,
                ));
            };
            assert(forall|j: int|
                0 <= j < BLOCK_SZ && j != byte_idx ==> d1[tb as int][j] == d0[tb as int][j]);
            assert(forall|bb: int|
                0 <= bb < cache.spec_total_blocks() && bb != tb ==> d1[bb] == d0[bb]);
            lemma_clear_bit(b, k as u8, 0);
            assert(!self.spec_bit(d1, bit as int));
            assert forall|j: int|
                0 <= j < self.blocks * BLOCK_BITS && j != bit implies self.spec_bit(d1, j)
                == self.spec_bit(d0, j) by {
                let jb = self.start_block_id + j / 4096;
                assert(0 <= j / 4096 < self.blocks) by (nonlinear_arith)
                    requires
                        0 <= j < self.blocks * 4096,
                ;
                if jb != tb {
                    assert(d1[jb] == d0[jb]);
                } else {
                    if (j % 4096) / 8 != byte_idx as int {
                        assert(d1[jb][(j % 4096) / 8] == d0[jb][(j % 4096) / 8]) by {
                            assert(0 <= (j % 4096) / 8 < 512);
                        };
                    } else {
                        assert(j % 8 != k as int) by (nonlinear_arith)
                            requires
                                j != bit,
                                j / 4096 == bit / 4096,
                                (j % 4096) / 8 == (bit % 4096) / 8,
                                k == bit % 8,
                                0 <= j,
                                0 <= bit,
                            ;
                        lemma_clear_bit(b, k as u8, (j % 8) as u8);
                    }
                }
            };
        }
    }
}

impl Bitmap {
    /// Number of clear bits with index below `m`.
    pub open spec fn free_below(self, disk: Seq<Seq<u8>>, m: int) -> int
        decreases m,
    {
        if m <= 0 {
            0
        } else {
            self.free_below(disk, m - 1) + if self.spec_bit(disk, m - 1) {
                0int
            } else {
                1int
            }
        }
    }

    /// The count of clear bits is between 0 and `m`.
    pub proof fn lemma_free_below_bounds(self, disk: Seq<Seq<u8>>, m: int)
        ensures
            0 <= self.free_below(disk, m),
            m >= 0 ==> self.free_below(disk, m) <= m,
        decreases m,
    {
        if m > 0 {
            self.lemma_free_below_bounds(disk, m - 1);
        }
    }

    /// Setting one clear bit lowers the count below `m` by one when the
    /// bit lies below `m`, else leaves it.
    pub proof fn lemma_free_below_set(
        self,
        d0: Seq<Seq<u8>>,
        d1: Seq<Seq<u8>>,
        i: int,
        m: int,
    )
        requires
            !self.spec_bit(d0, i),
            self.spec_bit(d1, i),
            forall|j: int| 0 <= j < m && j != i ==> self.spec_bit(d1, j) == self.spec_bit(d0, j),
        ensures
            self.free_below(d1, m) == self.free_below(d0, m) - if 0 <= i < m {
                1int
            } else {
                0int
            },
        decreases m,
    {
        if m > 0 {
            self.lemma_free_below_set(d0, d1, i, m - 1);
        }
    }

    /// A positive count yields a clear bit below `m`.
    pub proof fn lemma_free_below_pos(self, disk: Seq<Seq<u8>>, m: int)
        requires
            self.free_below(disk, m) > 0,
        ensures
            exists|j: int| 0 <= j < m && !self.spec_bit(disk, j),
        decreases m,
    {
        if m > 0 {
            if self.spec_bit(disk, m - 1) {
                self.lemma_free_below_pos(disk, m - 1);
            }
        }
    }

    /// When every bit below `m` is clear, the count is `m` itself.
    pub proof fn lemma_free_below_all_clear(self, disk: Seq<Seq<u8>>, m: int)
        requires
            forall|j: int| 0 <= j < m ==> !self.spec_bit(disk, j),
        ensures
            self.free_below(disk, m) == if m >= 0 {
                m
            } else {
                0int
            },
        decreases m,
    {
        if m > 0 {
            self.lemma_free_below_all_clear(disk, m - 1);
        }
    }

    /// Equal bitmap blocks give an equal bit.
    pub proof fn lemma_bit_same_block(self, d1: Seq<Seq<u8>>, d2: Seq<Seq<u8>>, j: int)
        requires
            0 <= j < self.blocks * 4096,
            d2[self.start_block_id + j / 4096] == d1[self.start_block_id + j / 4096],
        ensures
            self.spec_bit(d2, j) == self.spec_bit(d1, j),
    {
        reveal(Bitmap::spec_bit);
        assert(0 <= j / 4096 < self.blocks) by (nonlinear_arith)
            requires
                0 <= j < self.blocks * 4096,
        ;
    }

    /// Bits unchanged below `m` leave the count unchanged.
    pub proof fn lemma_free_below_same(self, d0: Seq<Seq<u8>>, d1: Seq<Seq<u8>>, m: int)
        requires
            forall|j: int| 0 <= j < m ==> self.spec_bit(d1, j) == self.spec_bit(d0, j),
        ensures
            self.free_below(d1, m) == self.free_below(d0, m),
        decreases m,
    {
        if m > 0 {
            self.lemma_free_below_same(d0, d1, m - 1);
        }
    }
}

/// Law: a set bit stays set through an allocation, so a second
/// allocation cannot return the same index until it is cleared: by
/// `allocate`'s contract every returned index was clear beforehand.
pub proof fn lemma_alloc_never_reissues(bm: Bitmap, disk: Seq<Seq<u8>>, held: int, fresh: int)
    requires
        bm.spec_bit(disk, held),
        !bm.spec_bit(disk, fresh),
    ensures
        held != fresh,
{
}

} // verus!
