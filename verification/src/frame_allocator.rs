//! The physical page frame allocator.
//!
//! A stack allocator over a contiguous range `[start, end)` of physical
//! page numbers: a monotonically increasing cursor plus a LIFO stack of
//! recycled frames.  Its free set is stated exactly, so allocation and
//! deallocation contracts pin down which frame moves in or out.

use vstd::prelude::*;

use crate::address::PhysPageNum;

verus! {

/// Allocator of physical page frames over `[current, end)` plus the
/// recycled stack.
pub struct FrameAllocator {
    pub current: usize,
    pub end: usize,
    pub recycled: Vec<usize>,
}

impl FrameAllocator {
    /// Internal consistency: every recycled frame was handed out before
    /// (below the cursor) and sits on the stack at most once.
    pub open spec fn wf(self) -> bool {
        &&& self.current <= self.end
        &&& forall|i: int|
            0 <= i < self.recycled@.len() ==> (#[trigger] self.recycled@[i]) < self.current
        &&& forall|i: int, j: int|
            0 <= i < j < self.recycled@.len() ==> self.recycled@[i] != self.recycled@[j]
    }

    /// A frame is free when it is recycled or not yet handed out.
    pub open spec fn is_free(self, p: usize) -> bool {
        self.recycled@.contains(p) || (self.current <= p < self.end)
    }

    /// The set of free frames.
    pub open spec fn free_set(self) -> Set<usize> {
        Set::new(|p: usize| self.is_free(p))
    }

    /// A frame counts as handed out when it lies below the cursor and is
    /// not on the recycled stack.
    pub open spec fn is_allocated(self, p: usize) -> bool {
        p < self.current && !self.recycled@.contains(p)
    }

    /// A fresh allocator over the physical page range `[start, end)`.
    pub fn new(start: usize, end: usize) -> (r: FrameAllocator)
        requires
            start <= end,
        ensures
            r.wf(),
            r.current == start,
            r.end == end,
            forall|p: usize| r.is_free(p) <==> start <= p < end,
    {
        FrameAllocator { current: start, end, recycled: Vec::new() }
    }

    /// Pop a recycled frame if any, else take the cursor frame; fail
    /// only when the range is exhausted.
    pub fn allocate(&mut self) -> (r: Option<PhysPageNum>)
        requires
            old(self).wf(),
        ensures
            final(self).wf(),
            final(self).end == old(self).end,
            r is Some <==> !old(self).free_set().is_empty(),
            r matches Some(p) ==> {
                &&& old(self).is_free(p.0)
                &&& !final(self).is_free(p.0)
                &&& final(self).is_allocated(p.0)
                &&& final(self).free_set() == old(self).free_set().remove(p.0)
                &&& forall|q: usize|
                    q != p.0 ==> (final(self).is_allocated(q) <==> old(self).is_allocated(q))
                &&& if old(self).recycled@.len() > 0 {
                    p.0 == old(self).recycled@.last()
                } else {
                    p.0 == old(self).current
                }
            },
            r is None ==> {
                &&& final(self).current == old(self).current
                &&& final(self).recycled@ == old(self).recycled@
                &&& final(self).free_set() == old(self).free_set()
            },
    {
        let ghost r0 = self.recycled@;
        let opt = self.recycled.pop();
        match opt {
            Some(p) => {
                proof {
                    let n = r0.len() as int;
                    assert(r0[n - 1] == p);
                    assert(self.recycled@ == r0.subrange(0, n - 1));
                    assert forall|q: usize| #[trigger]
                        self.recycled@.contains(q) implies r0.contains(q) && q != p by {
                        let i = choose|i: int|
                            0 <= i < self.recycled@.len() && self.recycled@[i] == q;
                        assert(r0[i] == q);
                        if q == p {
                            assert(r0[i] == r0[n - 1] && i < n - 1);
                        }
                    };
                    assert forall|q: usize| #[trigger]
                        r0.contains(q) && q != p implies self.recycled@.contains(q) by {
                        let i = choose|i: int| 0 <= i < r0.len() && r0[i] == q;
                        assert(i != n - 1);
                        assert(self.recycled@[i] == q);
                    };
                    assert(r0.contains(p));
                    assert(old(self).is_free(p));
                    assert(!self.is_free(p));
                    assert(self.free_set() =~= old(self).free_set().remove(p));
                    assert(old(self).free_set().contains(p));
                }
                Some(PhysPageNum(p))
            },
            None => {
                assert(r0.len() == 0);
                if self.current < self.end {
                    let p = self.current;
                    self.current = self.current + 1;
                    proof {
                        assert(!self.is_free(p));
                        assert(self.free_set() =~= old(self).free_set().remove(p));
                        assert(old(self).free_set().contains(p));
                    }
                    Some(PhysPageNum(p))
                } else {
                    proof {
                        assert(forall|q: usize| !old(self).is_free(q));
                        assert(old(self).free_set() =~= Set::empty());
                    }
                    None
                }
            },
        }
    }

    /// Return a frame to the stack.  The frame must have been handed out
    /// and not yet returned: a double free is a programmer error,
    /// excluded here by precondition.
    pub fn dealloc(&mut self, ppn: PhysPageNum)
        requires
            old(self).wf(),
            old(self).is_allocated(ppn.0),
        ensures
            final(self).wf(),
            final(self).end == old(self).end,
            final(self).is_free(ppn.0),
            !final(self).is_allocated(ppn.0),
            final(self).free_set() == old(self).free_set().insert(ppn.0),
            forall|q: usize|
                q != ppn.0 ==> (final(self).is_allocated(q) <==> old(self).is_allocated(q)),
    {
        let ghost r0 = self.recycled@;
        self.recycled.push(ppn.0);
        proof {
            let n = r0.len() as int;
            assert(self.recycled@ == r0.push(ppn.0));
            assert(self.recycled@[n] == ppn.0);
            assert(self.recycled@.contains(ppn.0));
            assert forall|q: usize| #[trigger]
                self.recycled@.contains(q) implies r0.contains(q) || q == ppn.0 by {
                let i = choose|i: int| 0 <= i < self.recycled@.len() && self.recycled@[i] == q;
                if i < n {
                    assert(r0[i] == q);
                }
            };
            assert forall|q: usize| #[trigger] r0.contains(q) implies self.recycled@.contains(
                q,
            ) by {
                let i = choose|i: int| 0 <= i < r0.len() && r0[i] == q;
                assert(self.recycled@[i] == q);
            };
            assert(self.free_set() =~= old(self).free_set().insert(ppn.0));
        }
    }
}

/// Law: returning the frame that `allocate` just handed out restores
/// the free set exactly.  The hypotheses are the transitions that the
/// contracts of `allocate` and `dealloc` establish.
pub proof fn lemma_frame_round_trip(
    before: FrameAllocator,
    mid: FrameAllocator,
    after: FrameAllocator,
    p: usize,
)
    requires
        before.free_set().contains(p),
        mid.free_set() == before.free_set().remove(p),
        after.free_set() == mid.free_set().insert(p),
    ensures
        after.free_set() == before.free_set(),
{
    assert(after.free_set() =~= before.free_set());
}

} // verus!
