//! The task and process core: control blocks, the FIFO scheduler and
//! the processor.
//!
//! The kernel's shared state is explicit here: a process table indexed
//! by PID, the ready queue of thread references, the processor's
//! current thread, the pipe table and the sleep timers.  Context
//! switching is modeled by moving thread references between the ready
//! queue and the processor; every decision the scheduler makes is a
//! verified function of this state.

use vstd::prelude::*;

use crate::config::{KERNEL_STACK_SIZE, PAGE_SIZE, TRAMPOLINE, TRAP_CONTEXT_BASE};
use crate::context::{TaskContext, TrapContext};
use crate::id::RecycleAllocator;
use crate::pipe::PipeRingBuffer;
use crate::signal::{SignalActions, SignalFlags};

verus! {

/// A thread, named by its process id and its thread id.
#[derive(Clone, Copy, PartialEq, Eq, Structural, Debug)]
pub struct TaskRef {
    pub pid: usize,
    pub tid: usize,
}

/// Scheduling state of a thread.
#[derive(Clone, Copy, PartialEq, Eq, Structural, Debug)]
pub enum TaskStatus {
    Ready,
    Running,
    Blocked,
}

/// An entry of the file-descriptor table: a capability to one of the
/// kernel's byte channels.
#[derive(Clone, Copy, PartialEq, Eq, Structural, Debug)]
pub enum FdEntry {
    Stdin,
    Stdout,
    PipeRead(usize),
    PipeWrite(usize),
    FileInode(u32),
}

/// A blocking or spinning mutex owned by one process.
pub struct MutexState {
    pub blocking: bool,
    pub locked: bool,
    pub wait_queue: Vec<TaskRef>,
}

/// A counting semaphore owned by one process.
pub struct SemaphoreState {
    pub count: i32,
    pub wait_queue: Vec<TaskRef>,
}

/// A condition variable owned by one process.
pub struct CondvarState {
    pub wait_queue: Vec<TaskRef>,
}

/// A thread control block.
pub struct TaskControlBlock {
    pub tid: usize,
    pub kstack: usize,
    pub trap_cx: TrapContext,
    pub task_cx: TaskContext,
    pub task_status: TaskStatus,
    pub exit_code: Option<i32>,
    pub res: bool,
}

/// A process control block: identity, liveness, family, threads,
/// descriptors, signals and sync objects.
pub struct ProcessControlBlock {
    pub pid: usize,
    pub alive: bool,
    pub is_zombie: bool,
    pub exit_code: i32,
    pub parent: Option<usize>,
    pub children: Vec<usize>,
    pub signals: SignalFlags,
    pub signal_actions: SignalActions,
    pub tasks: Vec<Option<TaskControlBlock>>,
    pub task_res_allocator: RecycleAllocator,
    pub fd_table: Vec<Option<FdEntry>>,
    pub mutex_list: Vec<Option<MutexState>>,
    pub semaphore_list: Vec<Option<SemaphoreState>>,
    pub condvar_list: Vec<Option<CondvarState>>,
    pub ustack_base: usize,
    pub user_token: usize,
}

impl ProcessControlBlock {
    /// The process id.
    pub fn getpid(&self) -> (r: usize)
        ensures
            r == self.pid,
    {
        self.pid
    }

    /// The address-space token of this process.
    pub fn get_user_token(&self) -> (r: usize)
        ensures
            r == self.user_token,
    {
        self.user_token
    }

    /// The lowest free file descriptor, extending the table when none
    /// is free.
    pub fn alloc_fd(&mut self) -> (fd: usize)
        requires
            old(self).fd_table@.len() < usize::MAX,
        ensures
            fd < final(self).fd_table@.len(),
            old(self).fd_table@.len() <= final(self).fd_table@.len() <= old(self).fd_table@.len()
                + 1,
            final(self).fd_table@[fd as int] is None,
            forall|i: int| 0 <= i < fd ==> (#[trigger] old(self).fd_table@[i]) is Some,
            forall|i: int|
                0 <= i < old(self).fd_table@.len() ==> #[trigger] final(self).fd_table@[i] == old(
                    self,
                ).fd_table@[i],
            *final(self) == (ProcessControlBlock { fd_table: final(self).fd_table, ..*old(self) }),
    {
        let n = self.fd_table.len();
        let mut fd: usize = 0;
        while fd < n
            invariant
                n == self.fd_table@.len(),
                fd <= n,
                *self == *old(self),
                forall|i: int| 0 <= i < fd ==> (#[trigger] self.fd_table@[i]) is Some,
            decreases n - fd,
        {
            if self.fd_table[fd].is_none() {
                return fd;
            }
            fd = fd + 1;
        }
        self.fd_table.push(None);
        fd
    }

    /// Set descriptor slot `i` to `e`.
    pub fn set_fd(&mut self, i: usize, e: Option<FdEntry>)
        requires
            i < old(self).fd_table@.len(),
        ensures
            final(self).fd_table@ == old(self).fd_table@.update(i as int, e),
            *final(self) == (ProcessControlBlock { fd_table: final(self).fd_table, ..*old(self) }),
    {
        let slot = &mut self.fd_table[i];
        *slot = e;
    }

    /// Allocate the smallest free thread id of this process.
    pub fn alloc_tid(&mut self) -> (tid: usize)
        requires
            old(self).task_res_allocator.wf(),
            old(self).task_res_allocator.current < usize::MAX,
        ensures
            final(self).task_res_allocator.wf(),
            !old(self).task_res_allocator.is_allocated(tid),
            final(self).task_res_allocator.is_allocated(tid),
            *final(self) == (ProcessControlBlock {
                task_res_allocator: final(self).task_res_allocator,
                ..*old(self)
            }),
    {
        self.task_res_allocator.allocate()
    }

    /// Return thread id `tid` to this process's allocator.
    pub fn dealloc_tid(&mut self, tid: usize)
        requires
            old(self).task_res_allocator.wf(),
            old(self).task_res_allocator.is_allocated(tid),
        ensures
            final(self).task_res_allocator.wf(),
            !final(self).task_res_allocator.is_allocated(tid),
    {
        self.task_res_allocator.dealloc(tid)
    }

    /// Number of thread slots of this process.
    pub fn thread_count(&self) -> (r: usize)
        ensures
            r == self.tasks@.len(),
    {
        self.tasks.len()
    }
}

/// The FIFO ready queue.
pub struct TaskManager {
    pub ready_queue: Vec<TaskRef>,
}

impl TaskManager {
    /// An empty queue.
    pub fn new() -> (r: TaskManager)
        ensures
            r.ready_queue@.len() == 0,
    {
        TaskManager { ready_queue: Vec::new() }
    }

    /// Append a thread at the tail.
    pub fn add(&mut self, task: TaskRef)
        ensures
            final(self).ready_queue@ == old(self).ready_queue@.push(task),
    {
        self.ready_queue.push(task);
    }

    /// Remove and return the thread at the head; `None` when empty.
    pub fn fetch(&mut self) -> (r: Option<TaskRef>)
        ensures
            old(self).ready_queue@.len() == 0 ==> r is None && final(self).ready_queue@ == old(
                self).ready_queue@,
            old(self).ready_queue@.len() > 0 ==> r == Some(old(self).ready_queue@[0]) && final(
                self).ready_queue@ == old(self).ready_queue@.drop_first(),
    {
        if self.ready_queue.len() == 0 {
            None
        } else {
            let r = self.ready_queue.remove(0);
            proof {
                assert(self.ready_queue@ =~= old(self).ready_queue@.drop_first());
            }
            Some(r)
        }
    }

    /// Remove the given thread from the queue, wherever it stands.
    pub fn remove(&mut self, task: TaskRef)
        ensures
            final(self).ready_queue@.len() <= old(self).ready_queue@.len(),
            forall|t: TaskRef|
                #[trigger] final(self).ready_queue@.contains(t) ==> old(
                    self,
                ).ready_queue@.contains(t),
            !final(self).ready_queue@.contains(task),
    {
        let n = self.ready_queue.len();
        let mut out: Vec<TaskRef> = Vec::new();
        let mut i: usize = 0;
        while i < n
            invariant
                n == self.ready_queue@.len(),
                i <= n,
                out@.len() <= i,
                forall|t: TaskRef| #[trigger]
                    out@.contains(t) ==> self.ready_queue@.contains(t) && t != task,
            decreases n - i,
        {
            let t = self.ready_queue[i];
            if !(t.pid == task.pid && t.tid == task.tid) {
                let ghost pre = out@;
                out.push(t);
                proof {
                    assert(t != task);
                    assert forall|x: TaskRef| #[trigger] out@.contains(x) implies
                        self.ready_queue@.contains(x) && x != task by {
                        if pre.contains(x) {
                        } else {
                            assert(out@.last() == t);
                            assert(x == t);
                            assert(self.ready_queue@[i as int] == t);
                        }
                    };
                }
            }
            i = i + 1;
        }
        self.ready_queue = out;
    }
}

/// The processor: the running thread and the idle continuation.
pub struct Processor {
    pub current: Option<TaskRef>,
    pub idle_task_cx: TaskContext,
}

impl Processor {
    /// No thread running.
    pub fn new() -> (r: Processor)
        ensures
            r.current is None,
    {
        Processor { current: None, idle_task_cx: TaskContext::zero_init() }
    }

    /// Take the current thread, leaving none.
    pub fn take_current(&mut self) -> (r: Option<TaskRef>)
        ensures
            r == old(self).current,
            final(self).current is None,
            final(self).idle_task_cx == old(self).idle_task_cx,
    {
        let r = self.current;
        self.current = None;
        r
    }

    /// The current thread, if any.
    pub fn current(&self) -> (r: Option<TaskRef>)
        ensures
            r == self.current,
    {
        self.current
    }
}

/// Law: the ready queue is strict FIFO.  If thread `a` is enqueued and
/// then thread `b`, and the queue held `q` before, every dequeue
/// returns the head, so `a` comes out before `b`.
pub proof fn lemma_fifo_order(q: Seq<TaskRef>, a: TaskRef, b: TaskRef)
    ensures
        q.push(a).push(b)[q.len() as int] == a,
        q.push(a).push(b)[q.len() as int + 1] == b,
        forall|i: int| 0 <= i < q.len() ==> q.push(a).push(b)[i] == q[i],
{
}

} // verus!
