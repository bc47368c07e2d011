//! The block cache: up to 16 cached copies of disk blocks.
//!
//! A slot owns a full copy of one block plus a dirty flag; the manager
//! owns the slots and the backing device.  On a miss with a full cache
//! the first slot is evicted FIFO (in this sequential model no slot is
//! held by an outside reference) and written back if dirty.  The
//! manager's contracts speak of its *logical disk*: the device contents
//! overlaid with the cached copies, so that callers never see eviction.

use vstd::prelude::*;

use crate::block_dev::{splice, MemoryDisk, BLOCK_SZ};

verus! {

/// Number of slots in the block cache.
pub const BLOCK_CACHE_SIZE: usize = 16;

/// One cached block: a copy of the block's bytes, the block id, and
/// whether the copy has been written since it was loaded or flushed.
pub struct BlockCache {
    pub cache: Vec<u8>,
    pub block_id: usize,
    pub modified: bool,
}

impl BlockCache {
    /// A slot is a full block wide.
    pub open spec fn wf(self) -> bool {
        self.cache@.len() == BLOCK_SZ
    }

    /// Load a fresh slot for `block_id` from the device.
    pub fn new(block_id: usize, disk: &MemoryDisk) -> (r: BlockCache)
        requires
            disk.wf(),
            block_id < disk.view_blocks().len(),
        ensures
            r.wf(),
            r.block_id == block_id,
            r.cache@ == disk.view_blocks()[block_id as int],
            !r.modified,
    {
        let cache = disk.read_block(block_id);
        BlockCache { cache, block_id, modified: false }
    }

    /// Read `len` bytes at `offset` of the cached block.
    pub fn read(&self, offset: usize, len: usize) -> (r: Vec<u8>)
        requires
            self.wf(),
            offset + len <= BLOCK_SZ,
        ensures
            r@ == self.cache@.subrange(offset as int, offset + len),
    {
        let mut r: Vec<u8> = Vec::new();
        let mut i: usize = 0;
        while i < len
            invariant
                self.wf(),
                offset + len <= BLOCK_SZ,
                i <= len,
                r@.len() == i,
                forall|j: int| 0 <= j < i ==> r@[j] == self.cache@[offset + j],
            decreases len - i,
        {
            r.push(self.cache[offset + i]);
            i = i + 1;
        }
        proof {
            assert(r@ =~= self.cache@.subrange(offset as int, offset + len));
        }
        r
    }

    /// Overwrite the cached bytes at `offset` with `data` and mark the
    /// slot dirty.
    pub fn modify(&mut self, offset: usize, data: &Vec<u8>)
        requires
            old(self).wf(),
            offset + data@.len() <= BLOCK_SZ,
        ensures
            final(self).wf(),
            final(self).block_id == old(self).block_id,
            final(self).cache@ == splice(old(self).cache@, offset as int, data@),
            final(self).modified,
    {
        let mut i: usize = 0;
        while i < data.len()
            invariant
                self.wf(),
                self.block_id == old(self).block_id,
                offset + data@.len() <= BLOCK_SZ,
                i <= data@.len(),
                forall|j: int| 0 <= j < i ==> self.cache@[offset + j] == data@[j],
                forall|j: int|
                    0 <= j < BLOCK_SZ && !(offset <= j < offset + i) ==> self.cache@[j] == old(
                        self,
                    ).cache@[j],
            decreases data@.len() - i,
        {
            let slot = &mut self.cache[offset + i];
            *slot = data[i];
            i = i + 1;
        }
        self.modified = true;
        proof {
            assert(self.cache@ =~= splice(old(self).cache@, offset as int, data@));
        }
    }

    /// Write the slot back to the device if it is dirty.
    pub fn sync(&mut self, disk: &mut MemoryDisk)
        requires
            old(self).wf(),
            old(disk).wf(),
            old(self).block_id < old(disk).view_blocks().len(),
        ensures
            final(self).wf(),
            final(disk).wf(),
            final(self).cache@ == old(self).cache@,
            final(self).block_id == old(self).block_id,
            !final(self).modified,
            final(disk).view_blocks() == if old(self).modified {
                old(disk).view_blocks().update(old(self).block_id as int, old(self).cache@)
            } else {
                old(disk).view_blocks()
            },
    {
        if self.modified {
            self.modified = false;
            disk.write_block(self.block_id, &self.cache);
        }
    }
}

/// The cache manager: the slots, FIFO in load order, and the device.
pub struct BlockCacheManager {
    pub queue: Vec<BlockCache>,
    pub disk: MemoryDisk,
}

impl BlockCacheManager {
    /// At most 16 well-formed slots with distinct in-range block ids.
    pub open spec fn wf(self) -> bool {
        &&& self.disk.wf()
        &&& self.queue@.len() <= BLOCK_CACHE_SIZE
        &&& forall|i: int| 0 <= i < self.queue@.len() ==> (#[trigger] self.queue@[i]).wf()
        &&& forall|i: int|
            0 <= i < self.queue@.len() ==> (#[trigger] self.queue@[i]).block_id
                < self.disk.view_blocks().len()
        &&& forall|i: int, j: int|
            0 <= i < j < self.queue@.len() ==> self.queue@[i].block_id != self.queue@[j].block_id
        &&& forall|i: int|
            0 <= i < self.queue@.len() && !(#[trigger] self.queue@[i]).modified
                ==> self.queue@[i].cache@ == self.disk.view_blocks()[self.queue@[i].block_id as int]
    }

    /// Whether block `b` currently has a cache slot.
    pub open spec fn cached(self, b: int) -> bool {
        exists|i: int| 0 <= i < self.queue@.len() && (#[trigger] self.queue@[i]).block_id == b
    }

    /// The slot index of block `b`, when `cached(b)`.
    pub open spec fn slot_of(self, b: int) -> int {
        choose|i: int| 0 <= i < self.queue@.len() && (#[trigger] self.queue@[i]).block_id == b
    }

    /// The logical content of block `b`: the cached copy if present,
    /// else the device block.
    pub open spec fn block_at(self, b: int) -> Seq<u8> {
        if self.cached(b) {
            self.queue@[self.slot_of(b)].cache@
        } else {
            self.disk.view_blocks()[b]
        }
    }

    /// The logical disk: device contents overlaid with the cache.
    #[verifier::opaque]
    pub open spec fn disk_view(self) -> Seq<Seq<u8>> {
        Seq::new(self.disk.view_blocks().len(), |b: int| self.block_at(b))
    }

    /// Number of logical blocks.
    pub open spec fn spec_total_blocks(self) -> int {
        self.disk.view_blocks().len() as int
    }

    /// The logical disk has one entry per device block.
    pub broadcast proof fn lemma_disk_view_len(m: BlockCacheManager)
        ensures
            (#[trigger] m.disk_view()).len() == m.spec_total_blocks(),
    {
        reveal(BlockCacheManager::disk_view);
    }

    /// Every logical block is a full block of bytes.
    pub broadcast proof fn lemma_disk_view_block_len(m: BlockCacheManager, b: int)
        requires
            m.wf(),
            0 <= b < m.spec_total_blocks(),
        ensures
            (#[trigger] m.disk_view()[b]).len() == BLOCK_SZ,
    {
        reveal(BlockCacheManager::disk_view);
        if m.cached(b) {
            let k = m.slot_of(b);
            assert(m.queue@[k].wf());
        }
    }

    /// Slot `i` is the unique slot of its block id.
    pub proof fn lemma_slot_unique(self, i: int)
        requires
            self.wf(),
            0 <= i < self.queue@.len(),
        ensures
            self.cached(self.queue@[i].block_id as int),
            self.slot_of(self.queue@[i].block_id as int) == i,
    {
        let b = self.queue@[i].block_id as int;
        assert(self.cached(b));
        let j = self.slot_of(b);
        assert(0 <= j < self.queue@.len() && self.queue@[j].block_id == b);
        if i != j {
            assert(self.queue@[i].block_id != self.queue@[j].block_id);
        }
    }

    /// An empty cache over `disk`.
    pub fn new(disk: MemoryDisk) -> (r: BlockCacheManager)
        requires
            disk.wf(),
        ensures
            r.wf(),
            r.disk_view() == disk.view_blocks(),
            r.queue@.len() == 0,
    {
        let r = BlockCacheManager { queue: Vec::new(), disk };
        proof {
            reveal(BlockCacheManager::disk_view);
            assert(r.disk_view() =~= r.disk.view_blocks());
        }
        r
    }

    /// Number of logical blocks, as an executable query.
    pub fn total_blocks(&self) -> (r: usize)
        ensures
            r == self.spec_total_blocks(),
    {
        self.disk.total_blocks()
    }

    /// Get the slot caching `block_id`, loading it on a miss; on a miss
    /// with a full cache, first evict the first slot (FIFO; in this
    /// sequential model every slot has shared count one) and write it
    /// back if dirty.  The logical disk does not change.
    pub fn get_block_cache(&mut self, block_id: usize) -> (idx: usize)
        requires
            old(self).wf(),
            block_id < old(self).spec_total_blocks(),
        ensures
            final(self).wf(),
            idx < final(self).queue@.len(),
            final(self).queue@[idx as int].block_id == block_id,
            final(self).disk_view() == old(self).disk_view(),
            final(self).spec_total_blocks() == old(self).spec_total_blocks(),
    {
        let n = self.queue.len();
        let mut i: usize = 0;
        while i < n
            invariant
                *self == *old(self),
                self.wf(),
                n == self.queue@.len(),
                i <= n,
                forall|j: int| 0 <= j < i ==> (#[trigger] self.queue@[j]).block_id != block_id,
            decreases n - i,
        {
            if self.queue[i].block_id == block_id {
                proof {
                    reveal(BlockCacheManager::disk_view);
                    self.lemma_slot_unique(i as int);
                }
                return i;
            }
            i = i + 1;
        }
        assert(!self.cached(block_id as int));
        let ghost pre = *self;
        if self.queue.len() == BLOCK_CACHE_SIZE {
            let mut victim = self.queue.remove(0);
            let ghost mid = *self;
            victim.sync(&mut self.disk);
            proof {
                reveal(BlockCacheManager::disk_view);
                let vb = victim.block_id as int;
                assert(pre.queue@[0].block_id == vb);
                // after removal no slot holds the victim's block
                assert forall|b: int| #[trigger] self.cached(b) implies pre.cached(b) && b != vb by {
                    let k = self.slot_of(b);
                    assert(self.queue@[k].block_id == b);
                    assert(self.queue@[k] == pre.queue@[k + 1]);
                    pre.lemma_slot_unique(k + 1);
                    if b == vb {
                        pre.lemma_slot_unique(0);
                    }
                };
                assert forall|b: int| pre.cached(b) && b != vb implies #[trigger] self.cached(
                    b,
                ) by {
                    let k = pre.slot_of(b);
                    assert(pre.queue@[k].block_id == b);
                    assert(k != 0) by {
                        pre.lemma_slot_unique(0);
                        if k == 0 {
                            assert(b == vb);
                        }
                    };
                    assert(self.queue@[k - 1] == pre.queue@[k]);
                };
                assert forall|b: int| 0 <= b < pre.spec_total_blocks() implies self.block_at(b)
                    == pre.block_at(b) by {
                    if self.cached(b) {
                        let k = self.slot_of(b);
                        assert(self.queue@[k] == pre.queue@[k + 1]);
                        pre.lemma_slot_unique(k + 1);
                        assert(pre.slot_of(b) == k + 1);
                    } else if b == vb {
                        pre.lemma_slot_unique(0);
                        assert(pre.block_at(b) == pre.queue@[0].cache@);
                        assert(self.disk.view_blocks()[b] == victim.cache@);
                    } else {
                        assert(!pre.cached(b));
                        assert(self.disk.view_blocks()[b] == pre.disk.view_blocks()[b]);
                    }
                };
                assert(self.disk_view() =~= pre.disk_view());
                assert(self.wf()) by {
                    assert(forall|k: int|
                        0 <= k < self.queue@.len() ==> self.queue@[k] == pre.queue@[k + 1]);
                    assert forall|k: int|
                        0 <= k < self.queue@.len() && !(#[trigger] self.queue@[k]).modified implies
                        self.queue@[k].cache@ == self.disk.view_blocks()[self.queue@[
                    k].block_id as int] by {
                        assert(self.queue@[k] == pre.queue@[k + 1]);
                        pre.lemma_slot_unique(k + 1);
                        assert(pre.queue@[k + 1].block_id != vb) by {
                            if pre.queue@[k + 1].block_id == vb {
                                assert(pre.slot_of(vb) == k + 1);
                                pre.lemma_slot_unique(0);
                            }
                        };
                        assert(self.disk.view_blocks()[self.queue@[k].block_id as int]
                            == mid.disk.view_blocks()[self.queue@[k].block_id as int]);
                    };
                };
                assert(!self.cached(block_id as int)) by {
                    if self.cached(block_id as int) {
                        let k = self.slot_of(block_id as int);
                        assert(self.queue@[k] == pre.queue@[k + 1]);
                    }
                };
            }
        }
        let ghost pre2 = *self;
        let bc = BlockCache::new(block_id, &self.disk);
        self.queue.push(bc);
        let idx = self.queue.len() - 1;
        proof {
            reveal(BlockCacheManager::disk_view);
            let m = pre2.queue@.len() as int;
            assert(self.queue@.len() == m + 1);
            assert(self.queue@[m].block_id == block_id);
            assert(forall|k: int| 0 <= k < m ==> self.queue@[k] == pre2.queue@[k]);
            assert(self.wf()) by {
                assert forall|a: int, b2: int|
                    0 <= a < b2 < self.queue@.len() implies self.queue@[a].block_id
                    != self.queue@[b2].block_id by {
                    if b2 == m {
                        pre2.lemma_slot_unique(a);
                        if self.queue@[a].block_id == block_id {
                            assert(pre2.cached(block_id as int));
                        }
                    }
                };
                assert(forall|k: int|
                    0 <= k < self.queue@.len() && !(#[trigger] self.queue@[k]).modified
                        ==> self.queue@[k].cache@ == self.disk.view_blocks()[self.queue@[
                    k].block_id as int]);
            };
            assert forall|b: int| 0 <= b < pre2.spec_total_blocks() implies self.block_at(b)
                == pre2.block_at(b) by {
                if b == block_id as int {
                    self.lemma_slot_unique(m);
                    assert(self.block_at(b) == self.queue@[m].cache@);
                    assert(!pre2.cached(b));
                } else {
                    if self.cached(b) {
                        let k = self.slot_of(b);
                        assert(k != m);
                        assert(self.queue@[k] == pre2.queue@[k]);
                        pre2.lemma_slot_unique(k);
                        self.lemma_slot_unique(k);
                    } else {
                        if pre2.cached(b) {
                            let k = pre2.slot_of(b);
                            assert(self.queue@[k] == pre2.queue@[k]);
                            assert(self.cached(b));
                        }
                    }
                }
            };
            assert(self.disk_view() =~= pre2.disk_view());
            self.lemma_slot_unique(m);
        }
        idx
    }

    /// Read `len` logical bytes of block `block_id` at `offset`.
    pub fn read_block_range(&mut self, block_id: usize, offset: usize, len: usize) -> (r: Vec<u8>)
        requires
            old(self).wf(),
            block_id < old(self).spec_total_blocks(),
            offset + len <= BLOCK_SZ,
        ensures
            final(self).wf(),
            final(self).disk_view() == old(self).disk_view(),
            final(self).spec_total_blocks() == old(self).spec_total_blocks(),
            r@ == old(self).disk_view()[block_id as int].subrange(offset as int, offset + len),
    {
        let idx = self.get_block_cache(block_id);
        proof {
            reveal(BlockCacheManager::disk_view);
            self.lemma_slot_unique(idx as int);
            assert(self.disk_view()[block_id as int] == self.queue@[idx as int].cache@);
        }
        self.queue[idx].read(offset, len)
    }

    /// Overwrite the logical bytes of block `block_id` at `offset` with
    /// `data`; every other byte of the logical disk keeps its value.
    pub fn modify_block_range(&mut self, block_id: usize, offset: usize, data: &Vec<u8>)
        requires
            old(self).wf(),
            block_id < old(self).spec_total_blocks(),
            offset + data@.len() <= BLOCK_SZ,
        ensures
            final(self).wf(),
            final(self).spec_total_blocks() == old(self).spec_total_blocks(),
            final(self).disk_view() == old(self).disk_view().update(
                block_id as int,
                splice(old(self).disk_view()[block_id as int], offset as int, data@),
            ),
    {
        let idx = self.get_block_cache(block_id);
        let ghost pre = *self;
        proof {
            reveal(BlockCacheManager::disk_view);
            pre.lemma_slot_unique(idx as int);
            assert(pre.disk_view()[block_id as int] == pre.queue@[idx as int].cache@);
        }
        let slot = &mut self.queue[idx];
        slot.modify(offset, data);
        proof {
            reveal(BlockCacheManager::disk_view);
            assert(forall|k: int|
                0 <= k < self.queue@.len() && k != idx ==> self.queue@[k] == pre.queue@[k]);
            assert(self.queue@[idx as int].block_id == block_id);
            assert(self.wf()) by {
                assert forall|a: int, b2: int|
                    0 <= a < b2 < self.queue@.len() implies self.queue@[a].block_id
                    != self.queue@[b2].block_id by {
                    assert(pre.queue@[a].block_id != pre.queue@[b2].block_id);
                };
                assert forall|k: int|
                    0 <= k < self.queue@.len() && !(#[trigger] self.queue@[k]).modified implies
                    self.queue@[k].cache@ == self.disk.view_blocks()[self.queue@[
                k].block_id as int] by {
                    assert(k != idx);
                    assert(self.queue@[k] == pre.queue@[k]);
                };
            };
            assert forall|b: int| 0 <= b < self.spec_total_blocks() && b != block_id implies
                self.block_at(b) == pre.block_at(b) by {
                if self.cached(b) {
                    let k = self.slot_of(b);
                    assert(k != idx);
                    assert(self.queue@[k] == pre.queue@[k]);
                    pre.lemma_slot_unique(k);
                } else {
                    if pre.cached(b) {
                        let k = pre.slot_of(b);
                        assert(k != idx) by {
                            if k == idx {
                                assert(pre.queue@[k].block_id == b);
                            }
                        };
                        assert(self.queue@[k] == pre.queue@[k]);
                        assert(self.cached(b));
                    }
                }
            };
            self.lemma_slot_unique(idx as int);
            assert(self.block_at(block_id as int) == splice(
                pre.disk_view()[block_id as int],
                offset as int,
                data@,
            ));
            assert(self.disk_view() =~= pre.disk_view().update(
                block_id as int,
                splice(pre.disk_view()[block_id as int], offset as int, data@),
            ));
        }
    }

    /// Flush every dirty slot to the device without evicting: afterwards
    /// the device itself holds the logical disk.
    pub fn sync_all(&mut self)
        requires
            old(self).wf(),
        ensures
            final(self).wf(),
            final(self).disk_view() == old(self).disk_view(),
            final(self).spec_total_blocks() == old(self).spec_total_blocks(),
            final(self).disk.view_blocks() == old(self).disk_view(),
    {
        let n = self.queue.len();
        let mut i: usize = 0;
        while i < n
            invariant
                n == self.queue@.len(),
                i <= n,
                self.wf(),
                self.spec_total_blocks() == old(self).spec_total_blocks(),
                self.disk_view() == old(self).disk_view(),
                forall|k: int| 0 <= k < i ==> !(#[trigger] self.queue@[k]).modified,
            decreases n - i,
        {
            let ghost pre = *self;
            proof {
                reveal(BlockCacheManager::disk_view);
                pre.lemma_slot_unique(i as int);
            }
            let ghost bid = pre.queue@[i as int].block_id;
            let slot = &mut self.queue[i];
            slot.sync(&mut self.disk);
            proof {
                reveal(BlockCacheManager::disk_view);
                assert(forall|k: int| 0 <= k < n && k != i ==> self.queue@[k] == pre.queue@[k]);
                assert(self.queue@[i as int].cache@ == pre.queue@[i as int].cache@);
                assert(self.queue@[i as int].block_id == bid);
                assert(self.disk.view_blocks()[bid as int] == self.queue@[i as int].cache@);
                assert(self.wf()) by {
                    assert forall|a: int, b2: int|
                        0 <= a < b2 < self.queue@.len() implies self.queue@[a].block_id
                        != self.queue@[b2].block_id by {
                        assert(pre.queue@[a].block_id != pre.queue@[b2].block_id);
                    };
                    assert forall|k: int|
                        0 <= k < self.queue@.len() && !(#[trigger] self.queue@[k]).modified implies
                        self.queue@[k].cache@ == self.disk.view_blocks()[self.queue@[
                        k].block_id as int] by {
                        if k != i {
                            assert(pre.queue@[k].block_id != bid) by {
                                pre.lemma_slot_unique(k);
                            };
                            assert(self.disk.view_blocks()[self.queue@[k].block_id as int]
                                == pre.disk.view_blocks()[pre.queue@[k].block_id as int]);
                        }
                    };
                };
                assert forall|b: int| 0 <= b < self.spec_total_blocks() implies self.block_at(b)
                    == pre.block_at(b) by {
                    if self.cached(b) {
                        let k = self.slot_of(b);
                        pre.lemma_slot_unique(k);
                        assert(pre.slot_of(b) == k);
                        assert(self.queue@[k].cache@ == pre.queue@[k].cache@);
                    } else {
                        if pre.cached(b) {
                            let k = pre.slot_of(b);
                            assert(self.queue@[k].block_id == pre.queue@[k].block_id);
                            assert(self.cached(b));
                        }
                        assert(b != bid) by {
                            if b == bid {
                                assert(self.queue@[i as int].block_id == b);
                                assert(self.cached(b));
                            }
                        };
                        assert(self.disk.view_blocks()[b] == pre.disk.view_blocks()[b]);
                    }
                };
                assert(self.disk_view() =~= pre.disk_view());
            }
            i = i + 1;
        }
        proof {
            reveal(BlockCacheManager::disk_view);
            assert forall|b: int| 0 <= b < self.spec_total_blocks() implies (
            self.disk.view_blocks()[b]) == self.block_at(b) by {
                if self.cached(b) {
                    let k = self.slot_of(b);
                    assert(self.queue@[k].block_id == b);
                    assert(!self.queue@[k].modified);
                }
            };
            assert(self.disk.view_blocks() =~= self.disk_view());
        }
    }
}

/// Flush the whole cache to the device.
pub fn block_cache_sync_all(mgr: &mut BlockCacheManager)
    requires
        old(mgr).wf(),
    ensures
        final(mgr).wf(),
        final(mgr).disk_view() == old(mgr).disk_view(),
        final(mgr).disk.view_blocks() == old(mgr).disk_view(),
{
    mgr.sync_all();
}

/// Law: reading back a just-modified range returns exactly the bytes
/// written, for any block content and any in-range offset.
pub proof fn lemma_modify_then_read(s: Seq<u8>, off: int, data: Seq<u8>)
    requires
        s.len() == BLOCK_SZ,
        0 <= off,
        off + data.len() <= BLOCK_SZ,
    ensures
        splice(s, off, data).subrange(off, off + data.len()) == data,
{
    assert(splice(s, off, data).subrange(off, off + data.len()) =~= data);
}

} // verus!
