//! Physical and virtual addresses and page numbers of the SV39 scheme.
//!
//! Physical addresses are 56 bits wide, virtual addresses 39; a page is
//! 4 KiB, so page numbers are 44 and 27 bits.  A virtual page number is
//! indexed by three consecutive 9-bit slices when walking a page table.

use vstd::prelude::*;

use crate::config::PAGE_SIZE;

verus! {

/// A physical byte address, at most 56 bits.
#[derive(Clone, Copy, PartialEq, Eq, Structural, Debug)]
pub struct PhysAddr(pub usize);

/// A virtual byte address, at most 39 bits.
#[derive(Clone, Copy, PartialEq, Eq, Structural, Debug)]
pub struct VirtAddr(pub usize);

/// A physical page number: a physical address divided by the page size.
#[derive(Clone, Copy, PartialEq, Eq, Structural, Debug)]
pub struct PhysPageNum(pub usize);

/// A virtual page number: a virtual address divided by the page size.
#[derive(Clone, Copy, PartialEq, Eq, Structural, Debug)]
pub struct VirtPageNum(pub usize);

impl PhysAddr {
    /// The offset of this address within its page.
    pub fn page_offset(&self) -> (r: usize)
        ensures
            r == self.0 % PAGE_SIZE,
    {
        self.0 % PAGE_SIZE
    }

    /// The page containing this address.
    pub fn floor(&self) -> (r: PhysPageNum)
        ensures
            r.0 == self.0 / PAGE_SIZE,
    {
        PhysPageNum(self.0 / PAGE_SIZE)
    }

    /// The first page boundary at or above this address.
    pub fn ceil(&self) -> (r: PhysPageNum)
        requires
            self.0 + PAGE_SIZE <= usize::MAX,
        ensures
            r.0 == (self.0 + PAGE_SIZE - 1) / (PAGE_SIZE as int),
    {
        PhysPageNum((self.0 + PAGE_SIZE - 1) / PAGE_SIZE)
    }
}

impl VirtAddr {
    /// The offset of this address within its page.
    pub fn page_offset(&self) -> (r: usize)
        ensures
            r == self.0 % PAGE_SIZE,
    {
        self.0 % PAGE_SIZE
    }

    /// The page containing this address.
    pub fn floor(&self) -> (r: VirtPageNum)
        ensures
            r.0 == self.0 / PAGE_SIZE,
    {
        VirtPageNum(self.0 / PAGE_SIZE)
    }

    /// The first page boundary at or above this address.
    pub fn ceil(&self) -> (r: VirtPageNum)
        requires
            self.0 + PAGE_SIZE <= usize::MAX,
        ensures
            r.0 == (self.0 + PAGE_SIZE - 1) / (PAGE_SIZE as int),
    {
        VirtPageNum((self.0 + PAGE_SIZE - 1) / PAGE_SIZE)
    }
}

impl PhysPageNum {
    /// The first byte address of this page.
    pub fn base_addr(&self) -> (r: PhysAddr)
        requires
            self.0 * PAGE_SIZE <= usize::MAX,
        ensures
            r.0 == self.0 * PAGE_SIZE,
    {
        PhysAddr(self.0 * PAGE_SIZE)
    }
}

impl VirtPageNum {
    /// The three 9-bit slices of the page number, highest first: the
    /// indices into the three levels of a page table.
    pub fn indexes(&self) -> (r: [usize; 3])
        ensures
            r[0] == (self.0 / 512 / 512) % 512,
            r[1] == (self.0 / 512) % 512,
            r[2] == self.0 % 512,
    {
        [(self.0 / 512 / 512) % 512, (self.0 / 512) % 512, self.0 % 512]
    }
}

} // verus!
