//! The block device port.
//!
//! Blocks are exactly 512 bytes; reads and writes are synchronous and
//! complete fully.  `MemoryDisk` is the backing store used by the
//! filesystem here: a dense in-memory array of blocks.  A host program
//! loads an image file into one and writes it back out when done.

use vstd::prelude::*;

verus! {

/// Size of one disk block, in bytes.
pub const BLOCK_SZ: usize = 512;

/// `s` with the range starting at `off` replaced by `data`; bytes
/// outside the range keep their value.
pub open spec fn splice(s: Seq<u8>, off: int, data: Seq<u8>) -> Seq<u8> {
    Seq::new(
        s.len(),
        |i: int|
            if off <= i < off + data.len() {
                data[i - off]
            } else {
                s[i]
            },
    )
}

/// A block device backed by memory: block `i` is `blocks[i]`.
pub struct MemoryDisk {
    pub blocks: Vec<Vec<u8>>,
}

/// A zero-filled block.
pub fn zero_block() -> (r: Vec<u8>)
    ensures
        r@.len() == BLOCK_SZ,
        forall|i: int| 0 <= i < r@.len() ==> r@[i] == 0u8,
{
    let mut v: Vec<u8> = Vec::new();
    let mut i: usize = 0;
    while i < BLOCK_SZ
        invariant
            i <= BLOCK_SZ,
            v@.len() == i,
            forall|j: int| 0 <= j < i ==> v@[j] == 0u8,
        decreases BLOCK_SZ - i,
    {
        v.push(0u8);
        i = i + 1;
    }
    v
}

impl MemoryDisk {
    /// Every block is exactly `BLOCK_SZ` bytes.
    pub open spec fn wf(self) -> bool {
        forall|i: int|
            0 <= i < self.blocks@.len() ==> (#[trigger] self.blocks@[i])@.len() == BLOCK_SZ
    }

    /// The disk contents as a sequence of byte sequences.
    pub open spec fn view_blocks(self) -> Seq<Seq<u8>> {
        Seq::new(self.blocks@.len(), |i: int| self.blocks@[i]@)
    }

    /// A fresh disk of `total_blocks` zero blocks.
    pub fn new(total_blocks: usize) -> (r: MemoryDisk)
        ensures
            r.wf(),
            r.view_blocks().len() == total_blocks,
            forall|i: int, j: int|
                0 <= i < total_blocks && 0 <= j < BLOCK_SZ ==> r.view_blocks()[i][j] == 0u8,
    {
        let mut blocks: Vec<Vec<u8>> = Vec::new();
        let mut i: usize = 0;
        while i < total_blocks
            invariant
                i <= total_blocks,
                blocks@.len() == i,
                forall|k: int| 0 <= k < i ==> (#[trigger] blocks@[k])@.len() == BLOCK_SZ,
                forall|k: int, j: int| 0 <= k < i && 0 <= j < BLOCK_SZ ==> blocks@[k]@[j] == 0u8,
            decreases total_blocks - i,
        {
            blocks.push(zero_block());
            i = i + 1;
        }
        MemoryDisk { blocks }
    }

    /// Number of blocks.
    pub fn total_blocks(&self) -> (r: usize)
        ensures
            r == self.view_blocks().len(),
    {
        self.blocks.len()
    }

    /// Read block `block_id` in full.
    pub fn read_block(&self, block_id: usize) -> (r: Vec<u8>)
        requires
            self.wf(),
            block_id < self.view_blocks().len(),
        ensures
            r@ == self.view_blocks()[block_id as int],
            r@.len() == BLOCK_SZ,
    {
        let mut r: Vec<u8> = Vec::new();
        let src: &Vec<u8> = &self.blocks[block_id];
        let mut i: usize = 0;
        while i < src.len()
            invariant
                i <= src@.len(),
                r@.len() == i,
                forall|j: int| 0 <= j < i ==> r@[j] == src@[j],
            decreases src@.len() - i,
        {
            r.push(src[i]);
            i = i + 1;
        }
        proof {
            assert(r@ =~= self.view_blocks()[block_id as int]);
        }
        r
    }

    /// Overwrite block `block_id` in full.
    pub fn write_block(&mut self, block_id: usize, buf: &Vec<u8>)
        requires
            old(self).wf(),
            block_id < old(self).view_blocks().len(),
            buf@.len() == BLOCK_SZ,
        ensures
            final(self).wf(),
            final(self).view_blocks() == old(self).view_blocks().update(block_id as int, buf@),
    {
        let mut copy: Vec<u8> = Vec::new();
        let mut i: usize = 0;
        while i < buf.len()
            invariant
                i <= buf@.len(),
                copy@.len() == i,
                forall|j: int| 0 <= j < i ==> copy@[j] == buf@[j],
            decreases buf@.len() - i,
        {
            copy.push(buf[i]);
            i = i + 1;
        }
        assert(copy@ =~= buf@);
        let slot = &mut self.blocks[block_id];
        *slot = copy;
        proof {
            assert(self.view_blocks() =~= old(self).view_blocks().update(block_id as int, buf@));
        }
    }
}

} // verus!
