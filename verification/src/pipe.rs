//! Pipes: a bounded byte ring between a read end and a write end.
//!
//! The ring holds up to 32 bytes; its readable contents are specified
//! as a byte sequence.  Reading and writing here are single rounds:
//! the scheduler-level code retries a round when it returns empty- or
//! full-handed, yielding in between.

use vstd::prelude::*;

verus! {

/// Capacity of the ring, in bytes.
pub const RING_BUFFER_SIZE: usize = 32;

/// Whether the ring is full, empty, or neither; `head == tail` alone
/// cannot tell the first two apart.
#[derive(Clone, Copy, PartialEq, Eq, Structural, Debug)]
pub enum RingBufferStatus {
    Full,
    Empty,
    Normal,
}

/// The ring: storage, head and tail cursors, the status tag, and the
/// number of live write ends.
pub struct PipeRingBuffer {
    pub arr: Vec<u8>,
    pub head: usize,
    pub tail: usize,
    pub status: RingBufferStatus,
    pub write_ends: usize,
}

impl PipeRingBuffer {
    /// Cursors in range, storage exactly one ring wide, tag consistent.
    pub open spec fn wf(self) -> bool {
        &&& self.arr@.len() == RING_BUFFER_SIZE
        &&& self.head < RING_BUFFER_SIZE
        &&& self.tail < RING_BUFFER_SIZE
        &&& (self.status is Full ==> self.head == self.tail)
        &&& (self.status is Empty ==> self.head == self.tail)
        &&& (self.status is Normal ==> self.head != self.tail)
    }

    /// Number of readable bytes.
    pub open spec fn spec_len(self) -> int {
        if self.status is Empty {
            0
        } else if self.status is Full {
            RING_BUFFER_SIZE as int
        } else if self.tail >= self.head {
            self.tail - self.head
        } else {
            self.tail + RING_BUFFER_SIZE - self.head
        }
    }

    /// The readable bytes, oldest first.
    pub open spec fn view_bytes(self) -> Seq<u8> {
        Seq::new(self.spec_len() as nat, |i: int| self.arr@[(self.head + i) % 32])
    }

    /// An empty ring with no write end registered yet.
    pub fn new() -> (r: PipeRingBuffer)
        ensures
            r.wf(),
            r.spec_len() == 0,
            r.write_ends == 0,
    {
        let mut arr: Vec<u8> = Vec::new();
        let mut i: usize = 0;
        while i < RING_BUFFER_SIZE
            invariant
                i <= RING_BUFFER_SIZE,
                arr@.len() == i,
            decreases RING_BUFFER_SIZE - i,
        {
            arr.push(0);
            i = i + 1;
        }
        PipeRingBuffer { arr, head: 0, tail: 0, status: RingBufferStatus::Empty, write_ends: 0 }
    }

    /// Register one more live write end.
    pub fn set_write_end(&mut self)
        requires
            old(self).write_ends < usize::MAX,
        ensures
            final(self).write_ends == old(self).write_ends + 1,
            final(self).arr == old(self).arr,
            final(self).head == old(self).head,
            final(self).tail == old(self).tail,
            final(self).status == old(self).status,
    {
        self.write_ends = self.write_ends + 1;
    }

    /// Whether every write end has been closed.
    pub fn all_write_ends_closed(&self) -> (r: bool)
        ensures
            r == (self.write_ends == 0),
    {
        self.write_ends == 0
    }

    /// Append one byte; the ring must not be full.
    pub fn write_byte(&mut self, byte: u8)
        requires
            old(self).wf(),
            old(self).spec_len() < RING_BUFFER_SIZE,
        ensures
            final(self).wf(),
            final(self).spec_len() == old(self).spec_len() + 1,
            final(self).view_bytes() == old(self).view_bytes().push(byte),
            final(self).write_ends == old(self).write_ends,
            final(self).head == old(self).head,
    {
        let ghost pre = *self;
        self.status = RingBufferStatus::Normal;
        let slot = &mut self.arr[self.tail];
        *slot = byte;
        self.tail = (self.tail + 1) % RING_BUFFER_SIZE;
        if self.tail == self.head {
            self.status = RingBufferStatus::Full;
        }
        proof {
            assert(self.spec_len() == pre.spec_len() + 1);
            assert forall|i: int| 0 <= i < self.spec_len() implies #[trigger] self.view_bytes()[i]
                == pre.view_bytes().push(byte)[i] by {
                if i < pre.spec_len() {
                    assert((pre.head + i) % 32 != pre.tail as int) by (nonlinear_arith)
                        requires
                            0 <= i < pre.spec_len(),
                            pre.spec_len() <= 32 - 1,
                            pre.head < 32,
                            pre.tail < 32,
                            pre.spec_len() == if pre.tail >= pre.head {
                                pre.tail - pre.head
                            } else {
                                pre.tail + 32 - pre.head
                            },
                    ;
                } else {
                    assert((pre.head + i) % 32 == pre.tail as int) by (nonlinear_arith)
                        requires
                            i == pre.spec_len(),
                            pre.head < 32,
                            pre.tail < 32,
                            0 <= i < 32,
                            pre.spec_len() == if pre.status is Empty {
                                0int
                            } else if pre.tail > pre.head {
                                pre.tail - pre.head
                            } else {
                                pre.tail + 32 - pre.head
                            },
                            pre.status is Empty ==> pre.head == pre.tail,
                    ;
                }
            };
            assert(self.view_bytes() =~= pre.view_bytes().push(byte));
        }
    }

    /// Remove and return the oldest byte; the ring must not be empty.
    pub fn read_byte(&mut self) -> (r: u8)
        requires
            old(self).wf(),
            old(self).spec_len() > 0,
        ensures
            final(self).wf(),
            r == old(self).view_bytes()[0],
            final(self).view_bytes() == old(self).view_bytes().drop_first(),
            final(self).spec_len() == old(self).spec_len() - 1,
            final(self).write_ends == old(self).write_ends,
    {
        let ghost pre = *self;
        self.status = RingBufferStatus::Normal;
        let c = self.arr[self.head];
        self.head = (self.head + 1) % RING_BUFFER_SIZE;
        if self.head == self.tail {
            self.status = RingBufferStatus::Empty;
        }
        proof {
            assert((pre.head + 0) % 32 == pre.head as int) by (nonlinear_arith)
                requires
                    pre.head < 32,
            ;
            assert(self.spec_len() == pre.spec_len() - 1);
            assert forall|i: int| 0 <= i < self.spec_len() implies #[trigger] self.view_bytes()[i]
                == pre.view_bytes().drop_first()[i] by {
                assert((self.head + i) % 32 == (pre.head + (i + 1)) % 32) by (nonlinear_arith)
                    requires
                        0 <= i < 32,
                        pre.head < 32,
                        self.head == (pre.head + 1) % 32,
                ;
            };
            assert(self.view_bytes() =~= pre.view_bytes().drop_first());
        }
        c
    }

    /// Number of bytes a read could take right now.
    pub fn available_read(&self) -> (r: usize)
        requires
            self.wf(),
        ensures
            r == self.spec_len(),
    {
        if matches!(self.status, RingBufferStatus::Empty) {
            0
        } else if matches!(self.status, RingBufferStatus::Full) {
            RING_BUFFER_SIZE
        } else if self.tail > self.head {
            self.tail - self.head
        } else {
            self.tail + RING_BUFFER_SIZE - self.head
        }
    }

    /// Number of bytes a write could add right now.
    pub fn available_write(&self) -> (r: usize)
        requires
            self.wf(),
        ensures
            r == RING_BUFFER_SIZE - self.spec_len(),
    {
        if matches!(self.status, RingBufferStatus::Full) {
            0
        } else {
            RING_BUFFER_SIZE - self.available_read()
        }
    }
}

/// One end of a pipe: the index of its ring in the kernel's pipe
/// table, and which directions it permits.
#[derive(Clone, Copy, PartialEq, Eq, Structural, Debug)]
pub struct Pipe {
    pub readable: bool,
    pub writable: bool,
    pub buffer: usize,
}

impl Pipe {
    /// The read end over ring `buffer`.
    pub fn read_end_with_buffer(buffer: usize) -> (r: Pipe)
        ensures
            r.readable && !r.writable && r.buffer == buffer,
    {
        Pipe { readable: true, writable: false, buffer }
    }

    /// The write end over ring `buffer`.
    pub fn write_end_with_buffer(buffer: usize) -> (r: Pipe)
        ensures
            !r.readable && r.writable && r.buffer == buffer,
    {
        Pipe { readable: false, writable: true, buffer }
    }
}

} // verus!
