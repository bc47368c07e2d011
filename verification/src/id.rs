//! Recycling identifier allocators and kernel-stack placement.
//!
//! One generic recycling allocator serves process identifiers, per-process
//! thread identifiers and kernel-stack slots: a monotonic cursor plus a
//! LIFO stack of returned identifiers.  The placement helpers compute the
//! fixed virtual-memory slots of kernel stacks, trap contexts and user
//! stacks.

use vstd::prelude::*;

use crate::config::{KERNEL_STACK_SIZE, PAGE_SIZE, TRAMPOLINE, TRAP_CONTEXT_BASE, USER_STACK_SIZE};

verus! {

/// Recycling allocator: hands out the smallest never-used identifier
/// unless a returned one is available on the stack.
pub struct RecycleAllocator {
    pub current: usize,
    pub recycled: Vec<usize>,
}

impl RecycleAllocator {
    /// Internal consistency: recycled identifiers were handed out before
    /// and appear at most once.
    pub open spec fn wf(self) -> bool {
        &&& forall|i: int|
            0 <= i < self.recycled@.len() ==> (#[trigger] self.recycled@[i]) < self.current
        &&& forall|i: int, j: int|
            0 <= i < j < self.recycled@.len() ==> self.recycled@[i] != self.recycled@[j]
    }

    /// An identifier counts as live when it lies below the cursor and is
    /// not on the recycled stack.
    pub open spec fn is_allocated(self, id: usize) -> bool {
        id < self.current && !self.recycled@.contains(id)
    }

    /// An empty allocator: no identifier has ever been handed out.
    pub fn new() -> (r: RecycleAllocator)
        ensures
            r.wf(),
            r.current == 0,
            r.recycled@.len() == 0,
            forall|id: usize| !r.is_allocated(id),
    {
        RecycleAllocator { current: 0, recycled: Vec::new() }
    }

    /// Hand out an identifier: the most recently recycled one if any,
    /// else the cursor.
    pub fn allocate(&mut self) -> (r: usize)
        requires
            old(self).wf(),
            old(self).current < usize::MAX,
        ensures
            final(self).wf(),
            !old(self).is_allocated(r),
            final(self).is_allocated(r),
            forall|q: usize|
                q != r ==> (final(self).is_allocated(q) <==> old(self).is_allocated(q)),
            final(self).current <= old(self).current + 1,
            if old(self).recycled@.len() > 0 {
                r == old(self).recycled@.last() && final(self).current == old(self).current
                    && final(self).recycled@ == old(self).recycled@.subrange(
                    0,
                    old(self).recycled@.len() - 1,
                )
            } else {
                r == old(self).current && final(self).current == old(self).current + 1
                    && final(self).recycled@ == old(self).recycled@
            },
    {
        let ghost r0 = self.recycled@;
        let opt = self.recycled.pop();
        match opt {
            Some(id) => {
                proof {
                    let n = r0.len() as int;
                    assert(r0[n - 1] == id);
                    assert(self.recycled@ == r0.subrange(0, n - 1));
                    assert forall|q: usize| #[trigger]
                        self.recycled@.contains(q) implies r0.contains(q) && q != id by {
                        let i = choose|i: int|
                            0 <= i < self.recycled@.len() && self.recycled@[i] == q;
                        assert(r0[i] == q);
                        if q == id {
                            assert(r0[i] == r0[n - 1] && i < n - 1);
                        }
                    };
                    assert forall|q: usize| #[trigger]
                        r0.contains(q) && q != id implies self.recycled@.contains(q) by {
                        let i = choose|i: int| 0 <= i < r0.len() && r0[i] == q;
                        assert(i != n - 1);
                        assert(self.recycled@[i] == q);
                    };
                    assert(r0.contains(id));
                }
                id
            },
            None => {
                self.current = self.current + 1;
                self.current - 1
            },
        }
    }

    /// Return an identifier.  It must be live: freeing a free or
    /// never-issued identifier is a programmer error, excluded here by
    /// precondition.
    pub fn dealloc(&mut self, id: usize)
        requires
            old(self).wf(),
            old(self).is_allocated(id),
        ensures
            final(self).wf(),
            !final(self).is_allocated(id),
            forall|q: usize|
                q != id ==> (final(self).is_allocated(q) <==> old(self).is_allocated(q)),
            final(self).current == old(self).current,
            final(self).recycled@ == old(self).recycled@.push(id),
    {
        let ghost r0 = self.recycled@;
        self.recycled.push(id);
        proof {
            let n = r0.len() as int;
            assert(self.recycled@ == r0.push(id));
            assert(self.recycled@[n] == id);
            assert(self.recycled@.contains(id));
            assert forall|q: usize| #[trigger]
                self.recycled@.contains(q) implies r0.contains(q) || q == id by {
                let i = choose|i: int| 0 <= i < self.recycled@.len() && self.recycled@[i] == q;
                if i < n {
                    assert(r0[i] == q);
                }
            };
            assert forall|q: usize| #[trigger] r0.contains(q) implies self.recycled@.contains(
                q,
            ) by {
                let i = choose|i: int| 0 <= i < r0.len() && r0[i] == q;
                assert(self.recycled@[i] == q);
            };
        }
    }
}

/// The bottom and top virtual addresses of kernel stack slot `kstack_id`:
/// stacks hang below the trampoline, one guard page between neighbours.
pub fn kernel_stack_position(kstack_id: usize) -> (r: (usize, usize))
    requires
        kstack_id * (KERNEL_STACK_SIZE + PAGE_SIZE) + KERNEL_STACK_SIZE < TRAMPOLINE,
    ensures
        r.1 == TRAMPOLINE - kstack_id * (KERNEL_STACK_SIZE + PAGE_SIZE),
        r.0 == r.1 - KERNEL_STACK_SIZE,
        r.0 < r.1,
{
    let top = TRAMPOLINE - kstack_id * (KERNEL_STACK_SIZE + PAGE_SIZE);
    let bottom = top - KERNEL_STACK_SIZE;
    (bottom, top)
}

/// The virtual address of the trap-context page of thread `tid`: one page
/// per thread, growing downwards from the page below the trampoline.
pub fn trap_cx_bottom_from_tid(tid: usize) -> (r: usize)
    requires
        tid * PAGE_SIZE <= TRAP_CONTEXT_BASE,
    ensures
        r == TRAP_CONTEXT_BASE - tid * PAGE_SIZE,
{
    TRAP_CONTEXT_BASE - tid * PAGE_SIZE
}

/// The bottom virtual address of the user stack of thread `tid`: stacks
/// grow upwards from the stack base, one guard page between neighbours.
pub fn ustack_bottom_from_tid(ustack_base: usize, tid: usize) -> (r: usize)
    requires
        ustack_base + tid * (PAGE_SIZE + USER_STACK_SIZE) <= usize::MAX,
    ensures
        r == ustack_base + tid * (PAGE_SIZE + USER_STACK_SIZE),
{
    ustack_base + tid * (PAGE_SIZE + USER_STACK_SIZE)
}

} // verus!
