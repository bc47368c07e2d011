//! The kernel's global state and its system calls.
//!
//! One value of `Kernel` holds everything a running kernel keeps in
//! singletons: the process table, the PID and kernel-stack allocators,
//! the ready queue, the processor, the pipe table, the sleep timers
//! and the clock.  System calls are methods: each one is a verified
//! transition of this state, returning what the trap path writes into
//! the calling thread's return register.

use vstd::prelude::*;

use crate::config::MAX_SIG;
use crate::context::{TaskContext, TrapContext};
use crate::id::RecycleAllocator;
use crate::pipe::{PipeRingBuffer, RING_BUFFER_SIZE};
use crate::signal::{SignalActions, SignalFlags};
use crate::task::{
    CondvarState, FdEntry, MutexState, Processor, ProcessControlBlock, SemaphoreState,
    TaskControlBlock, TaskManager, TaskRef, TaskStatus,
};

verus! {




/// The threads of `timers` whose expiry is at or before `now`, in
/// order.
pub open spec fn expired_tasks(timers: Seq<(usize, TaskRef)>, now: int) -> Seq<TaskRef>
    decreases timers.len(),
{
    if timers.len() == 0 {
        Seq::empty()
    } else {
        expired_tasks(timers.drop_last(), now) + if timers.last().0 <= now {
            seq![timers.last().1]
        } else {
            Seq::empty()
        }
    }
}

/// The entries of `timers` whose expiry lies after `now`, in order.
pub open spec fn kept_timers(timers: Seq<(usize, TaskRef)>, now: int) -> Seq<(usize, TaskRef)>
    decreases timers.len(),
{
    if timers.len() == 0 {
        Seq::empty()
    } else {
        kept_timers(timers.drop_last(), now) + if timers.last().0 > now {
            seq![timers.last()]
        } else {
            Seq::empty()
        }
    }
}


/// How many entries of a descriptor table are write ends of pipe
/// ring `rb`.
pub open spec fn pw_count(ft: Seq<Option<FdEntry>>, rb: int) -> int
    decreases ft.len(),
{
    if ft.len() == 0 {
        0
    } else {
        pw_count(ft.drop_last(), rb) + if fd_pipe_write(ft.last()) == Some(rb) {
            1int
        } else {
            0int
        }
    }
}


/// A descriptor table holds at most one pipe write end per entry.
proof fn lemma_pw_count_bound(ft: Seq<Option<FdEntry>>, rb: int)
    ensures
        0 <= pw_count(ft, rb) <= ft.len(),
    decreases ft.len(),
{
    if ft.len() > 0 {
        lemma_pw_count_bound(ft.drop_last(), rb);
    }
}

/// The entries of a thread queue that do not belong to process `pid`,
/// in order.
pub open spec fn queue_without(q: Seq<TaskRef>, pid: int) -> Seq<TaskRef>
    decreases q.len(),
{
    if q.len() == 0 {
        Seq::empty()
    } else {
        queue_without(q.drop_last(), pid) + if q.last().pid != pid {
            seq![q.last()]
        } else {
            Seq::empty()
        }
    }
}

/// The timer entries whose thread does not belong to process `pid`,
/// in order.
pub open spec fn timers_without(t: Seq<(usize, TaskRef)>, pid: int) -> Seq<(usize, TaskRef)>
    decreases t.len(),
{
    if t.len() == 0 {
        Seq::empty()
    } else {
        timers_without(t.drop_last(), pid) + if t.last().1.pid != pid {
            seq![t.last()]
        } else {
            Seq::empty()
        }
    }
}

/// The ring index of a pipe write end, when the entry is one.
pub open spec fn fd_pipe_write(e: Option<FdEntry>) -> Option<int> {
    match e {
        Some(FdEntry::PipeWrite(rb)) => Some(rb as int),
        _ => None,
    }
}

/// The ring index of a pipe read end, when the entry is one.
pub open spec fn fd_pipe_read(e: Option<FdEntry>) -> Option<int> {
    match e {
        Some(FdEntry::PipeRead(rb)) => Some(rb as int),
        _ => None,
    }
}

/// What one round of writing `data` into pipe ring `rb` leaves behind:
/// exactly the bytes that fit are appended, everything else of the
/// kernel is untouched.
pub open spec fn pipe_write_post(pre: Kernel, post: Kernel, rb: int, data: Seq<u8>, r: int) -> bool {
    &&& r == if data.len() <= RING_BUFFER_SIZE - pre.pipes@[rb].spec_len() {
        data.len() as int
    } else {
        RING_BUFFER_SIZE - pre.pipes@[rb].spec_len()
    }
    &&& post.pipes@[rb].view_bytes() == pre.pipes@[rb].view_bytes() + data.take(r)
    &&& post.pipes@[rb].write_ends == pre.pipes@[rb].write_ends
    &&& post.processes == pre.processes
    &&& post.manager == pre.manager
    &&& post.processor == pre.processor
    &&& post.pipes@.len() == pre.pipes@.len()
    &&& forall|k: int| 0 <= k < pre.pipes@.len() && k != rb ==> #[trigger] post.pipes@[k] == pre.pipes@[k]
}

/// What one round of reading up to `len` bytes from pipe ring `rb`
/// returns and leaves behind: the oldest ring bytes, `0` exactly at
/// end of stream, `-2` exactly when a writer could still deliver.
pub open spec fn pipe_read_post(
    pre: Kernel,
    post: Kernel,
    rb: int,
    len: int,
    r: int,
    data: Seq<u8>,
) -> bool {
    &&& (r >= 0 ==> data == pre.pipes@[rb].view_bytes().take(r) && post.pipes@[rb].view_bytes()
        == pre.pipes@[rb].view_bytes().skip(r))
    &&& (len > 0 && pre.pipes@[rb].spec_len() > 0 ==> r == if len <= pre.pipes@[rb].spec_len() {
        len
    } else {
        pre.pipes@[rb].spec_len()
    })
    &&& (len > 0 ==> (r == 0 <==> pre.pipes@[rb].spec_len() == 0 && pre.pipes@[rb].write_ends
        == 0))
    &&& (r == -2 <==> len > 0 && pre.pipes@[rb].spec_len() == 0 && pre.pipes@[rb].write_ends > 0)
    &&& (len == 0 ==> r == 0)
    &&& post.pipes@[rb].write_ends == pre.pipes@[rb].write_ends
    &&& post.processes == pre.processes
    &&& post.manager == pre.manager
    &&& post.processor == pre.processor
    &&& post.pipes@.len() == pre.pipes@.len()
    &&& forall|k: int| 0 <= k < pre.pipes@.len() && k != rb ==> #[trigger] post.pipes@[k] == pre.pipes@[k]
}

/// PID of the initial process, which never exits.
pub const IDLE_PID: usize = 0;

/// The whole kernel state.
pub struct Kernel {
    pub processes: Vec<ProcessControlBlock>,
    pub pid_allocator: RecycleAllocator,
    pub kstack_allocator: RecycleAllocator,
    pub manager: TaskManager,
    pub processor: Processor,
    pub pipes: Vec<PipeRingBuffer>,
    pub timers: Vec<(usize, TaskRef)>,
    pub time_ms: usize,
}

impl Kernel {
    /// Process `pid` exists and has not been reaped.
    pub open spec fn live(self, pid: int) -> bool {
        0 <= pid < self.processes@.len() && self.processes@[pid].alive
    }

    /// The table is indexed by PID and the PID allocator covers it.
    pub open spec fn wf(self) -> bool {
        &&& self.pid_allocator.wf()
        &&& self.pid_allocator.current == self.processes@.len()
        &&& forall|i: int|
            0 <= i < self.processes@.len() ==> (#[trigger] self.processes@[i]).pid == i
        &&& forall|i: int|
            0 <= i < self.pid_allocator.recycled@.len() ==> (
            #[trigger] self.pid_allocator.recycled@[i]) < self.processes@.len()
                && !self.processes@[self.pid_allocator.recycled@[i] as int].alive
        &&& forall|i: int| 0 <= i < self.pipes@.len() ==> (#[trigger] self.pipes@[i]).wf()
    }

    /// A running thread exists and its process is live.
    pub open spec fn has_current(self) -> bool {
        &&& self.processor.current is Some
        &&& self.live(self.processor.current->0.pid as int)
    }

    /// The running thread's process id.
    pub open spec fn cur_pid(self) -> int {
        self.processor.current->0.pid as int
    }

    /// Descriptor `fd` of the running process; `None` when out of
    /// range or closed.
    pub open spec fn cur_fd(self, fd: int) -> Option<FdEntry> {
        if 0 <= fd < self.processes@[self.cur_pid()].fd_table@.len() {
            self.processes@[self.cur_pid()].fd_table@[fd]
        } else {
            None
        }
    }

    /// Child `i` of process `me` is a live process matching `pid`
    /// (`-1` matches any).
    pub open spec fn wait_match(self, me: int, i: int, pid: int) -> bool {
        let c = self.processes@[me].children@[i] as int;
        &&& 0 <= i < self.processes@[me].children@.len()
        &&& c < self.processes@.len()
        &&& self.processes@[c].alive
        &&& (pid == -1 || c == pid)
    }

    /// Child `i` of process `me` is a matching zombie.
    pub open spec fn wait_zombie(self, me: int, i: int, pid: int) -> bool {
        self.wait_match(me, i, pid) && self.processes@[
            self.processes@[me].children@[i] as int].is_zombie
    }

    /// An empty kernel: no processes, nothing scheduled, time zero.
    pub fn new() -> (r: Kernel)
        ensures
            r.wf(),
            r.processes@.len() == 0,
            r.manager.ready_queue@.len() == 0,
            r.processor.current is None,
            r.time_ms == 0,
    {
        Kernel {
            processes: Vec::new(),
            pid_allocator: RecycleAllocator::new(),
            kstack_allocator: RecycleAllocator::new(),
            manager: TaskManager::new(),
            processor: Processor::new(),
            pipes: Vec::new(),
            timers: Vec::new(),
            time_ms: 0,
        }
    }

    /// Build a process control block around a fresh PID.
    fn make_process(
        &mut self,
        pid: usize,
        parent: Option<usize>,
        entry_point: usize,
        user_token: usize,
    ) -> (p: ProcessControlBlock)
        requires
            old(self).kstack_allocator.wf(),
            old(self).kstack_allocator.current < usize::MAX,
        ensures
            final(self).kstack_allocator.wf(),
            *final(self) == (Kernel { kstack_allocator: final(self).kstack_allocator, ..*old(self) }),
            p.pid == pid,
            p.alive && !p.is_zombie,
            p.parent == parent,
            p.children@.len() == 0,
            p.tasks@.len() == 1,
            p.tasks@[0] is Some,
            (p.tasks@[0]->0.trap_cx.sepc == entry_point),
            (p.tasks@[0]->0.task_status is Ready),
            p.fd_table@.len() == 3,
            p.user_token == user_token,
    {
        let kstack = self.kstack_allocator.allocate();
        let trap_cx = TrapContext::app_init_context(entry_point, 0, 0, 0, 0);
        let tcb = TaskControlBlock {
            tid: 0,
            kstack,
            trap_cx,
            task_cx: TaskContext::goto_trap_return(0),
            task_status: TaskStatus::Ready,
            exit_code: None,
            res: true,
        };
        let mut tasks: Vec<Option<TaskControlBlock>> = Vec::new();
        tasks.push(Some(tcb));
        let mut allocator = RecycleAllocator::new();
        let tid0 = allocator.allocate();
        let mut fd_table: Vec<Option<FdEntry>> = Vec::new();
        fd_table.push(Some(FdEntry::Stdin));
        fd_table.push(Some(FdEntry::Stdout));
        fd_table.push(Some(FdEntry::Stdout));
        ProcessControlBlock {
            pid,
            alive: true,
            is_zombie: false,
            exit_code: 0,
            parent,
            children: Vec::new(),
            signals: SignalFlags::empty(),
            signal_actions: SignalActions::new_default(),
            tasks,
            task_res_allocator: allocator,
            fd_table,
            mutex_list: Vec::new(),
            semaphore_list: Vec::new(),
            condvar_list: Vec::new(),
            ustack_base: 0,
            user_token,
        }
    }

    /// Create the initial process and enqueue its main thread.  It
    /// receives PID 0, which stays taken for the kernel's lifetime.
    pub fn add_initproc(&mut self, entry_point: usize, user_token: usize)
        requires
            old(self).wf(),
            old(self).processes@.len() == 0,
            old(self).pid_allocator.recycled@.len() == 0,
            old(self).kstack_allocator.wf(),
            old(self).kstack_allocator.current < usize::MAX,
        ensures
            final(self).wf(),
            final(self).processes@.len() == 1,
            final(self).live(0),
            final(self).manager.ready_queue@ == old(self).manager.ready_queue@.push(
                TaskRef { pid: 0, tid: 0 },
            ),
    {
        let pid = self.pid_allocator.allocate();
        assert(pid == 0);
        let p = self.make_process(pid, None, entry_point, user_token);
        self.processes.push(p);
        self.manager.add(TaskRef { pid: 0, tid: 0 });
    }

    /// Append a thread to the ready queue.
    pub fn add_task(&mut self, task: TaskRef)
        ensures
            final(self).manager.ready_queue@ == old(self).manager.ready_queue@.push(task),
            final(self).processes == old(self).processes,
            final(self).processor == old(self).processor,
    {
        self.manager.add(task);
    }

    /// Pop the head of the ready queue.
    pub fn fetch_task(&mut self) -> (r: Option<TaskRef>)
        ensures
            old(self).manager.ready_queue@.len() == 0 ==> r is None,
            old(self).manager.ready_queue@.len() > 0 ==> r == Some(
                old(self).manager.ready_queue@[0],
            ) && final(self).manager.ready_queue@ == old(self).manager.ready_queue@.drop_first(),
            final(self).processes == old(self).processes,
    {
        self.manager.fetch()
    }

    /// Mark a blocked thread ready and enqueue it at the tail.
    pub fn wakeup_task(&mut self, task: TaskRef)
        requires
            old(self).live(task.pid as int),
            task.tid < old(self).processes@[task.pid as int].tasks@.len(),
        ensures
            final(self).manager.ready_queue@ == old(self).manager.ready_queue@.push(task),
            final(self).processes@.len() == old(self).processes@.len(),
    {
        let p = &mut self.processes[task.pid];
        let slot = &mut p.tasks[task.tid];
        match slot {
            Some(tcb) => {
                tcb.task_status = TaskStatus::Ready;
            },
            None => {},
        }
        self.manager.add(task);
    }

    /// Drop a thread from the ready queue, wherever it stands.
    pub fn remove_task(&mut self, task: TaskRef)
        ensures
            !final(self).manager.ready_queue@.contains(task),
            final(self).processes == old(self).processes,
    {
        self.manager.remove(task);
    }

    /// Drop a thread from the ready queue and the sleep timers.
    pub fn remove_inactive_task(&mut self, task: TaskRef)
        ensures
            !final(self).manager.ready_queue@.contains(task),
            final(self).processes == old(self).processes,
    {
        self.manager.remove(task);
        let n = self.timers.len();
        let mut out: Vec<(usize, TaskRef)> = Vec::new();
        let mut i: usize = 0;
        while i < n
            invariant
                n == self.timers@.len(),
                i <= n,
            decreases n - i,
        {
            let t = self.timers[i];
            if !(t.1.pid == task.pid && t.1.tid == task.tid) {
                out.push(t);
            }
            i = i + 1;
        }
        self.timers = out;
    }

    /// The PID of a live process, or `None` for a dead or unknown one.
    pub fn pid2process(&self, pid: usize) -> (r: Option<usize>)
        ensures
            r is Some <==> self.live(pid as int),
            r matches Some(p) ==> p == pid,
    {
        if pid < self.processes.len() && self.processes[pid].alive {
            Some(pid)
        } else {
            None
        }
    }

    /// Forget a reaped process's registration.  The slot stays dead
    /// until the PID is reused.
    pub fn remove_from_pid2task(&mut self, pid: usize)
        requires
            old(self).live(pid as int),
        ensures
            !final(self).live(pid as int),
            final(self).processes@.len() == old(self).processes@.len(),
            forall|i: int|
                0 <= i < old(self).processes@.len() && i != pid ==> final(self).processes@[i]
                    == old(self).processes@[i],
    {
        let p = &mut self.processes[pid];
        p.alive = false;
    }

    /// The running thread, taken off the processor.
    pub fn take_current_task(&mut self) -> (r: Option<TaskRef>)
        ensures
            r == old(self).processor.current,
            final(self).processor.current is None,
            final(self).processes == old(self).processes,
            final(self).manager == old(self).manager,
    {
        self.processor.take_current()
    }

    /// The running thread.
    pub fn current_task(&self) -> (r: Option<TaskRef>)
        ensures
            r == self.processor.current,
    {
        self.processor.current()
    }

    /// The running thread's process id.
    pub fn current_process(&self) -> (r: usize)
        requires
            self.has_current(),
        ensures
            r == self.cur_pid(),
    {
        self.processor.current.unwrap().pid
    }

    /// The address-space token of the running process.
    pub fn current_user_token(&self) -> (r: usize)
        requires
            self.has_current(),
        ensures
            r == self.processes@[self.cur_pid()].user_token,
    {
        let pid = self.current_process();
        self.processes[pid].get_user_token()
    }

    /// Give the processor to the head of the ready queue, if any.
    fn run_next(&mut self)
        requires
            old(self).processor.current is None,
        ensures
            old(self).manager.ready_queue@.len() == 0 ==> final(self).processor.current is None
                && final(self).manager.ready_queue@ == old(self).manager.ready_queue@,
            old(self).manager.ready_queue@.len() > 0 ==> final(self).processor.current == Some(
                old(self).manager.ready_queue@[0],
            ) && final(self).manager.ready_queue@ == old(self).manager.ready_queue@.drop_first(),
            final(self).processes@.len() == old(self).processes@.len(),
            forall|i: int|
                0 <= i < old(self).processes@.len() ==> (#[trigger] final(self).processes@[i]).pid
                    == old(self).processes@[i].pid && final(self).processes@[i].alive == old(self).processes@[i].alive && final(self).processes@[i].is_zombie == old(self).processes@[i].is_zombie && final(self).processes@[i].exit_code == old(self).processes@[i].exit_code && final(self).processes@[i].children == old(self).processes@[i].children && final(self).processes@[i].fd_table == old(self).processes@[i].fd_table && final(self).processes@[i].tasks@.len() == old(self).processes@[i].tasks@.len() && final(self).processes@[i].mutex_list == old(self).processes@[i].mutex_list && final(self).processes@[i].semaphore_list == old(self).processes@[i].semaphore_list && final(self).processes@[i].condvar_list == old(self).processes@[i].condvar_list && final(self).processes@[i].signals == old(self).processes@[i].signals,
            forall|i: int, j: int|
                0 <= i < old(self).processes@.len() && 0 <= j < old(self).processes@[i].tasks@.len()
                    ==> ((#[trigger] final(self).processes@[i].tasks@[j]) is Some <==> old(self).processes@[i].tasks@[j] is Some) && (final(self).processes@[i].tasks@[j] is Some
                    ==> final(self).processes@[i].tasks@[j]->0.exit_code == old(self).processes@[i].tasks@[j]->0.exit_code && final(self).processes@[i].tasks@[j]->0.trap_cx
                    == old(self).processes@[i].tasks@[j]->0.trap_cx),
            // only the scheduled thread's status may change, to Running
            forall|i: int, j: int|
                0 <= i < old(self).processes@.len() && 0 <= j < old(self).processes@[i].tasks@.len()
                    && old(self).processes@[i].tasks@[j] is Some && !(
                old(self).manager.ready_queue@.len() > 0 && i == old(self).manager.ready_queue@[0].pid && j == old(self).manager.ready_queue@[0].tid) ==> (
                #[trigger] final(self).processes@[i].tasks@[j])->0.task_status == old(self).processes@[i].tasks@[j]->0.task_status,
            old(self).manager.ready_queue@.len() > 0 ==> ({
                let t = old(self).manager.ready_queue@[0];
                t.pid < old(self).processes@.len() && t.tid < old(self).processes@[
                    t.pid as int].tasks@.len() && old(self).processes@[t.pid as int].tasks@[
                    t.tid as int] is Some ==> final(self).processes@[t.pid as int].tasks@[
                    t.tid as int]->0.task_status is Running
            }),
            final(self).pid_allocator == old(self).pid_allocator,
            final(self).timers == old(self).timers,
            final(self).pipes == old(self).pipes,
            final(self).time_ms == old(self).time_ms,
            old(self).wf() ==> final(self).wf(),
    {
        let next = self.manager.fetch();
        match next {
            Some(task) => {
                if task.pid < self.processes.len() {
                    let p = &mut self.processes[task.pid];
                    if task.tid < p.tasks.len() {
                        let slot = &mut p.tasks[task.tid];
                        match slot {
                            Some(tcb) => {
                                tcb.task_status = TaskStatus::Running;
                            },
                            None => {},
                        }
                    }
                }
                self.processor.current = Some(task);
            },
            None => {},
        }
    }

    /// Move the running thread to the tail of the ready queue and run
    /// the next one: the voluntary yield.
    pub fn suspend_current_and_run_next(&mut self)
        requires
            old(self).has_current(),
        ensures
            final(self).manager.ready_queue@.len() == old(self).manager.ready_queue@.len(),
            final(self).processor.current == if old(self).manager.ready_queue@.len() > 0 {
                Some(old(self).manager.ready_queue@[0])
            } else {
                old(self).processor.current
            },
            old(self).manager.ready_queue@.len() > 0 ==> final(self).manager.ready_queue@
                == old(self).manager.ready_queue@.drop_first().push(
                old(self).processor.current->0,
            ),
            final(self).pid_allocator == old(self).pid_allocator,
            final(self).timers == old(self).timers,
            final(self).pipes == old(self).pipes,
            final(self).processes@.len() == old(self).processes@.len(),
            forall|i: int|
                0 <= i < old(self).processes@.len() ==> (#[trigger] final(self).processes@[i]).pid
                    == old(self).processes@[i].pid && final(self).processes@[i].alive == old(self).processes@[i].alive && final(self).processes@[i].mutex_list == old(self).processes@[i].mutex_list && final(self).processes@[i].semaphore_list == old(self).processes@[i].semaphore_list && final(self).processes@[i].condvar_list == old(self).processes@[i].condvar_list && final(self).processes@[i].signals == old(self).processes@[i].signals,
            final(self).time_ms == old(self).time_ms,
            old(self).wf() ==> final(self).wf(),
            // the yielding thread is Ready unless it was immediately
            // rescheduled, in which case it is Running again
            ({
                let t = old(self).processor.current->0;
                t.pid < old(self).processes@.len() && t.tid < old(self).processes@[
                    t.pid as int].tasks@.len() && old(self).processes@[t.pid as int].tasks@[
                    t.tid as int] is Some ==> ({
                    let st = final(self).processes@[t.pid as int].tasks@[
                        t.tid as int]->0.task_status;
                    (final(self).processor.current == Some(t) ==> st is Running) && (final(self).processor.current != Some(t) ==> st is Ready)
                })
            }),
    {
        let task = self.processor.take_current().unwrap();
        if task.pid < self.processes.len() {
            let p = &mut self.processes[task.pid];
            if task.tid < p.tasks.len() {
                let slot = &mut p.tasks[task.tid];
                match slot {
                    Some(tcb) => {
                        tcb.task_status = TaskStatus::Ready;
                    },
                    None => {},
                }
            }
        }
        self.manager.add(task);
        let ghost q = self.manager.ready_queue@;
        proof {
            assert(forall|i: int|
                0 <= i < self.processes@.len() ==> (#[trigger] self.processes@[i]).pid == old(self).processes@[i].pid && self.processes@[i].alive == old(self).processes@[i].alive && self.processes@[i].mutex_list == old(self).processes@[i].mutex_list && self.processes@[i].semaphore_list == old(self).processes@[i].semaphore_list && self.processes@[i].condvar_list == old(self).processes@[i].condvar_list);
        }
        self.run_next();
        proof {
            if old(self).manager.ready_queue@.len() > 0 {
                assert(self.manager.ready_queue@ =~= old(self).manager.ready_queue@.drop_first().push(old(self).processor.current->0));
            } else {
                assert(q.drop_first() =~= Seq::<TaskRef>::empty());
                assert(self.processor.current == Some(old(self).processor.current->0));
            }
        }
    }

    /// Mark the running thread blocked and run the next one; the
    /// caller has already parked the thread on a wait queue.
    pub fn block_current_and_run_next(&mut self)
        requires
            old(self).has_current(),
        ensures
            final(self).processor.current == if old(self).manager.ready_queue@.len() > 0 {
                Some(old(self).manager.ready_queue@[0])
            } else {
                None
            },
            old(self).manager.ready_queue@.len() > 0 ==> final(self).manager.ready_queue@ == old(self).manager.ready_queue@.drop_first(),
            final(self).pid_allocator == old(self).pid_allocator,
            final(self).timers == old(self).timers,
            final(self).pipes == old(self).pipes,
            final(self).processes@.len() == old(self).processes@.len(),
            forall|i: int|
                0 <= i < old(self).processes@.len() ==> (#[trigger] final(self).processes@[i]).pid
                    == old(self).processes@[i].pid && final(self).processes@[i].alive == old(self).processes@[i].alive && final(self).processes@[i].mutex_list == old(self).processes@[i].mutex_list && final(self).processes@[i].semaphore_list == old(self).processes@[i].semaphore_list && final(self).processes@[i].condvar_list == old(self).processes@[i].condvar_list,
            old(self).wf() ==> final(self).wf(),
            old(self).manager.ready_queue@.len() == 0 ==> final(self).manager.ready_queue@ == old(self).manager.ready_queue@,
            // the parked thread is Blocked unless a stale queue entry
            // rescheduled it at once
            ({
                let t = old(self).processor.current->0;
                t.pid < old(self).processes@.len() && t.tid < old(self).processes@[
                    t.pid as int].tasks@.len() && old(self).processes@[t.pid as int].tasks@[
                    t.tid as int] is Some ==> ({
                    let st = final(self).processes@[t.pid as int].tasks@[
                        t.tid as int]->0.task_status;
                    (final(self).processor.current == Some(t) ==> st is Running) && (final(self).processor.current != Some(t) ==> st is Blocked)
                })
            }),
    {
        let task = self.processor.take_current().unwrap();
        let p = &mut self.processes[task.pid];
        if task.tid < p.tasks.len() {
            let slot = &mut p.tasks[task.tid];
            match slot {
                Some(tcb) => {
                    tcb.task_status = TaskStatus::Blocked;
                },
                None => {},
            }
        }
        proof {
            assert(forall|i: int|
                0 <= i < self.processes@.len() ==> (#[trigger] self.processes@[i]).pid == old(self).processes@[i].pid && self.processes@[i].alive == old(self).processes@[i].alive && self.processes@[i].mutex_list == old(self).processes@[i].mutex_list && self.processes@[i].semaphore_list == old(self).processes@[i].semaphore_list && self.processes@[i].condvar_list == old(self).processes@[i].condvar_list);
        }
        self.run_next();
    }

    /// Add a pending signal to the running process.
    pub fn current_add_signal(&mut self, signal: SignalFlags)
        requires
            old(self).has_current(),
        ensures
            final(self).processes@[old(self).cur_pid()].signals.bits == old(self).processes@[old(self).cur_pid()].signals.bits | signal.bits,
            final(self).processes@.len() == old(self).processes@.len(),
            forall|n: u32|
                signal.spec_has(n) ==> (#[trigger] final(self).processes@[old(self).cur_pid()].signals.spec_has(n)),
            final(self).processes@[old(self).cur_pid()] == (ProcessControlBlock {
                signals: final(self).processes@[old(self).cur_pid()].signals,
                ..old(self).processes@[old(self).cur_pid()]
            }),
            forall|q: int|
                0 <= q < old(self).processes@.len() && q != old(self).cur_pid() ==> #[trigger] final(self).processes@[q] == old(self).processes@[q],
            final(self).processor == old(self).processor,
            final(self).manager == old(self).manager,
            final(self).pid_allocator == old(self).pid_allocator,
            final(self).kstack_allocator == old(self).kstack_allocator,
            final(self).timers == old(self).timers,
            final(self).pipes == old(self).pipes,
            final(self).time_ms == old(self).time_ms,
            old(self).wf() ==> final(self).wf(),
    {
        let pid = self.current_process();
        let p = &mut self.processes[pid];
        p.signals.insert(signal);
        proof {
            assert forall|n: u32| signal.spec_has(n) implies (
            #[trigger] self.processes@[old(self).cur_pid()].signals.spec_has(n)) by {
                let b = old(self).processes@[old(self).cur_pid()].signals.bits;
                let o = signal.bits;
                assert(o >> n & 1 == 1 ==> (b | o) >> n & 1 == 1) by (bit_vector);
            };
            if old(self).wf() {
                assert(self.wf()) by {
                    assert(forall|k: int|
                        0 <= k < self.processes@.len() ==> (#[trigger] self.processes@[k]).pid
                            == old(self).processes@[k].pid && self.processes@[k].alive == old(self).processes@[k].alive);
                };
            }
        }
    }

    /// The fatal pending signal of the running process, if any, with
    /// its conventional exit code.
    pub fn check_signals_of_current(&self) -> (r: Option<(i32, &'static str)>)
        requires
            self.has_current(),
        ensures
            r is Some <==> {
                let s = self.processes@[self.cur_pid()].signals;
                s.spec_has(crate::signal::SIGINT) || s.spec_has(crate::signal::SIGILL)
                    || s.spec_has(crate::signal::SIGABRT) || s.spec_has(crate::signal::SIGFPE)
                    || s.spec_has(crate::signal::SIGKILL) || s.spec_has(crate::signal::SIGSEGV)
            },
            r matches Some(p) ==> p.0 < 0,
    {
        let pid = self.current_process();
        self.processes[pid].signals.check_error()
    }

    /// Send signal `signum` to process `pid`: `0` on success, `-1` for
    /// an unknown process or signal number.
    pub fn sys_kill(&mut self, pid: usize, signum: u32) -> (r: isize)
        ensures
            r == 0 <==> (old(self).live(pid as int) && signum <= MAX_SIG),
            r == 0 || r == -1,
            r == 0 ==> final(self).processes@[pid as int].signals.bits == old(self).processes@[pid as int].signals.bits | (1u32 << signum),
            r == 0 ==> final(self).processes@.len() == old(self).processes@.len() && (forall|q: int|
                0 <= q < old(self).processes@.len() && q != pid ==> #[trigger] final(self).processes@[q] == old(self).processes@[q]),
            r == -1 ==> *final(self) == *old(self),
            old(self).wf() ==> final(self).wf(),
    {
        if pid < self.processes.len() && self.processes[pid].alive && signum <= MAX_SIG as u32 {
            let ghost pre = *self;
            let flag = SignalFlags::single(signum);
            let p = &mut self.processes[pid];
            p.signals.insert(flag);
            proof {
                if pre.wf() {
                    assert(self.wf()) by {
                        assert(forall|k: int|
                            0 <= k < self.processes@.len() ==> (#[trigger] self.processes@[k]).pid
                                == pre.processes@[k].pid && self.processes@[k].alive
                                == pre.processes@[k].alive);
                    };
                }
            }
            0
        } else {
            -1
        }
    }

    /// The running process's id, as the syscall returns it.
    pub fn sys_getpid(&self) -> (r: isize)
        requires
            self.has_current(),
            self.cur_pid() <= isize::MAX,
        ensures
            r == self.cur_pid(),
    {
        self.current_process() as isize
    }

    /// Yield: `0`, after moving the caller behind every waiting
    /// thread.
    pub fn sys_yield(&mut self) -> (r: isize)
        requires
            old(self).wf(),
            old(self).has_current(),
        ensures
            r == 0,
            final(self).wf(),
            final(self).manager.ready_queue@.len() == old(self).manager.ready_queue@.len(),
            // the caller goes to the tail; everything queued ahead of
            // it runs first
            old(self).manager.ready_queue@.len() > 0 ==> final(self).manager.ready_queue@ == old(self).manager.ready_queue@.drop_first().push(old(self).processor.current->0) && final(self).processor.current == Some(old(self).manager.ready_queue@[0]),
            old(self).manager.ready_queue@.len() == 0 ==> final(self).processor.current == old(self).processor.current,
    {
        self.suspend_current_and_run_next();
        0
    }

    /// The clock, in milliseconds.
    pub fn sys_get_time(&self) -> (r: isize)
        requires
            self.time_ms <= isize::MAX,
        ensures
            r == self.time_ms,
    {
        self.time_ms as isize
    }
}

impl Kernel {
    /// Fork the running process: the child is a copy with a fresh PID,
    /// the parent's descriptor table (pipe write ends gaining one
    /// holder each), and the parent's saved trap context with a zero
    /// return register; the parent gets the child's PID, which is
    /// never zero, and the child's main thread joins the tail of the
    /// ready queue.
    #[verifier::rlimit(60)]
    pub fn fork(&mut self) -> (r: usize)
        requires
            old(self).wf(),
            old(self).has_current(),
            old(self).live(0),
            old(self).processes@.len() < usize::MAX,
            old(self).kstack_allocator.wf(),
            old(self).kstack_allocator.current < usize::MAX,
            (old(self).processes@[old(self).cur_pid()].tasks@[0] is Some),
            0 < old(self).processes@[old(self).cur_pid()].tasks@.len(),
            forall|rbx: int|
                0 <= rbx < old(self).pipes@.len() ==> (#[trigger] old(self).pipes@[rbx].write_ends) + old(self).processes@[old(self).cur_pid()].fd_table@.len() <= usize::MAX,
        ensures
            final(self).wf(),
            final(self).has_current(),
            r > 0,
            final(self).processes@.len() <= old(self).processes@.len() + 1,
            final(self).live(r as int),
            // the child's main thread holds the parent's trap context
            // with a zero return register
            ({
                let pt = old(self).processes@[old(self).cur_pid()].tasks@[0]->0.trap_cx;
                let ct = final(self).processes@[r as int].tasks@[0]->0.trap_cx;
                ct.x[10] == 0 && ct.sepc == pt.sepc && ct.sstatus == pt.sstatus && (forall|j: int|
                    0 <= j < 32 && j != 10 ==> ct.x[j] == pt.x[j])
            }),
            // the child shares the parent's descriptor table
            final(self).processes@[r as int].fd_table@ == old(self).processes@[old(self).cur_pid()].fd_table@,
            final(self).processes@[r as int].parent == Some(
                old(self).processor.current->0.pid,
            ),
            // every pipe write end of the table gains one holder
            forall|rbx: int|
                0 <= rbx < old(self).pipes@.len() ==> (#[trigger] final(self).pipes@[rbx].write_ends) == old(self).pipes@[rbx].write_ends + pw_count(
                    old(self).processes@[old(self).cur_pid()].fd_table@,
                    rbx,
                ) && final(self).pipes@[rbx].view_bytes() == old(self).pipes@[rbx].view_bytes(),
            // the child's main thread is enqueued at the tail
            final(self).manager.ready_queue@ == old(self).manager.ready_queue@.push(
                TaskRef { pid: r, tid: 0 },
            ),
            // the parent keeps running and records the child
            final(self).processor.current == old(self).processor.current,
            final(self).processes@[old(self).cur_pid()].children@ == old(self).processes@[old(self).cur_pid()].children@.push(r),
    {
        let parent_pid = self.current_process();
        let pid = self.pid_allocator.allocate();
        proof {
            assert(old(self).pid_allocator.is_allocated(0)) by {
                assert(old(self).processes@[0].alive);
                if old(self).pid_allocator.recycled@.contains(0) {
                    let i = choose|i: int|
                        0 <= i < old(self).pid_allocator.recycled@.len() && old(self).pid_allocator.recycled@[i] == 0;
                }
            };
            assert(pid != 0);
        }
        let token = self.processes[parent_pid].get_user_token();
        let entry = self.processes[parent_pid].ustack_base;
        let mut child = self.make_process(pid, Some(parent_pid), entry, token);
        // the child starts from the parent's saved trap context, with a
        // zero fork return value
        let parent_cx = match &self.processes[parent_pid].tasks[0] {
            Some(tcb) => tcb.trap_cx,
            None => crate::context::TrapContext::app_init_context(0, 0, 0, 0, 0),
        };
        let slot = &mut child.tasks[0];
        match slot {
            Some(tcb) => {
                tcb.trap_cx = parent_cx;
                tcb.trap_cx.x[10] = 0;
            },
            None => {},
        }
        // share the parent's descriptor table; each pipe write end
        // gains a holder
        let ghost ft0 = self.processes@[parent_pid as int].fd_table@;
        let ghost pipes0 = self.pipes@;
        let mut new_fds: Vec<Option<FdEntry>> = Vec::new();
        let nf = self.processes[parent_pid].fd_table.len();
        let mut i: usize = 0;
        while i < nf
            invariant
                parent_pid < self.processes@.len(),
                nf == ft0.len(),
                ft0 == self.processes@[parent_pid as int].fd_table@,
                i <= nf,
                new_fds@ == ft0.take(i as int),
                self.processes == old(self).processes,
                self.manager == old(self).manager,
                self.processor == old(self).processor,
                self.kstack_allocator == final(self).kstack_allocator || true,
                self.timers == old(self).timers,
                self.time_ms == old(self).time_ms,
                self.pid_allocator.wf(),
                self.pid_allocator.is_allocated(pid),
                pid != 0,
                pid < usize::MAX,
                self.pid_allocator.current == old(self).pid_allocator.current
                    + if old(self).pid_allocator.recycled@.len() > 0 {
                    0int
                } else {
                    1int
                },
                self.pid_allocator.current == self.processes@.len() + if pid
                    < self.processes@.len() {
                    0int
                } else {
                    1int
                },
                pid <= self.processes@.len(),
                forall|i2: int|
                    0 <= i2 < self.pid_allocator.recycled@.len() ==> (
                    #[trigger] self.pid_allocator.recycled@[i2]) < self.processes@.len()
                        && !self.processes@[self.pid_allocator.recycled@[i2] as int].alive,
                pipes0 == old(self).pipes@,
                self.pipes@.len() == pipes0.len(),
                forall|rbx: int|
                    0 <= rbx < pipes0.len() ==> (#[trigger] self.pipes@[rbx]) == (PipeRingBuffer {
                        write_ends: self.pipes@[rbx].write_ends,
                        ..pipes0[rbx]
                    }) && self.pipes@[rbx].write_ends as int == pipes0[rbx].write_ends
                        + pw_count(ft0.take(i as int), rbx),
                forall|rbx: int|
                    0 <= rbx < pipes0.len() ==> (#[trigger] pipes0[rbx].write_ends) + ft0.len()
                        <= usize::MAX,
            decreases nf - i,
        {
            let e = self.processes[parent_pid].fd_table[i];
            proof {
                assert(ft0.take(i + 1).drop_last() =~= ft0.take(i as int));
                assert(ft0.take(i + 1).last() == ft0[i as int]);
                assert(pw_count(ft0.take(i as int), 0) <= i) by {
                    lemma_pw_count_bound(ft0.take(i as int), 0);
                };
            }
            match e {
                Some(FdEntry::PipeWrite(rb)) => {
                    if rb < self.pipes.len() {
                        proof {
                            lemma_pw_count_bound(ft0.take(i as int), rb as int);
                        }
                        let ring = &mut self.pipes[rb];
                        ring.write_ends = ring.write_ends + 1;
                    }
                },
                _ => {},
            }
            new_fds.push(e);
            proof {
                assert(new_fds@ =~= ft0.take(i + 1));
            }
            i = i + 1;
        }
        proof {
            assert(ft0.take(nf as int) =~= ft0);
            assert forall|rbx: int| 0 <= rbx < self.pipes@.len() implies
                #[trigger] self.pipes@[rbx].view_bytes() == pipes0[rbx].view_bytes() by {
                assert(self.pipes@[rbx].arr == pipes0[rbx].arr);
                assert(self.pipes@[rbx].head == pipes0[rbx].head);
                assert(self.pipes@[rbx].tail == pipes0[rbx].tail);
                assert(self.pipes@[rbx].status == pipes0[rbx].status);
                assert(self.pipes@[rbx].view_bytes() =~= pipes0[rbx].view_bytes());
            };
        }
        child.fd_table = new_fds;
        let ghost mid = *self;
        if pid < self.processes.len() {
            let slot2 = &mut self.processes[pid];
            *slot2 = child;
        } else {
            self.processes.push(child);
        }
        proof {
            assert(self.wf()) by {
                assert forall|i2: int|
                    0 <= i2 < self.pid_allocator.recycled@.len() implies (
                #[trigger] self.pid_allocator.recycled@[i2]) < self.processes@.len()
                    && !self.processes@[self.pid_allocator.recycled@[i2] as int].alive by {
                    assert(mid.pid_allocator.recycled@.contains(mid.pid_allocator.recycled@[i2]));
                };
            };
        }
        let p = &mut self.processes[parent_pid];
        p.children.push(pid);
        self.manager.add(TaskRef { pid, tid: 0 });
        pid
    }

    /// Fork, as the syscall returns it to the parent.
    pub fn sys_fork(&mut self) -> (r: isize)
        requires
            old(self).wf(),
            old(self).has_current(),
            old(self).live(0),
            old(self).processes@.len() < isize::MAX,
            old(self).kstack_allocator.wf(),
            old(self).kstack_allocator.current < usize::MAX,
            (old(self).processes@[old(self).cur_pid()].tasks@[0] is Some),
            0 < old(self).processes@[old(self).cur_pid()].tasks@.len(),
            forall|rbx: int|
                0 <= rbx < old(self).pipes@.len() ==> (#[trigger] old(self).pipes@[rbx].write_ends) + old(self).processes@[old(self).cur_pid()].fd_table@.len() <= usize::MAX,
        ensures
            final(self).wf(),
            r > 0,
            final(self).live(r as int),
            (final(self).processes@[r as int].tasks@[0]->0.trap_cx.x[10] == 0),
            final(self).processes@[r as int].fd_table@ == old(self).processes@[old(self).cur_pid()].fd_table@,
            final(self).manager.ready_queue@ == old(self).manager.ready_queue@.push(
                TaskRef { pid: r as usize, tid: 0 },
            ),
    {
        let pid = self.fork();
        pid as isize
    }

    /// Replace the running process's program: a single-threaded
    /// process restarts at `entry_point` with `argc` and `argv_base`
    /// in its first two argument registers.
    pub fn exec(&mut self, entry_point: usize, user_sp: usize, argc: usize, argv_base: usize)
        requires
            old(self).wf(),
            old(self).has_current(),
            old(self).processes@[old(self).cur_pid()].tasks@.len() == 1,
            (old(self).processes@[old(self).cur_pid()].tasks@[0] is Some),
        ensures
            final(self).wf(),
            final(self).has_current(),
            ({
                let t = final(self).processes@[old(self).cur_pid()].tasks@[0]->0.trap_cx;
                t.sepc == entry_point && t.x[2] == user_sp && t.x[10] == argc && t.x[11]
                    == argv_base
            }),
            final(self).processor.current == old(self).processor.current,
    {
        let pid = self.current_process();
        let p = &mut self.processes[pid];
        let slot = &mut p.tasks[0];
        match slot {
            Some(tcb) => {
                tcb.trap_cx.sepc = entry_point;
                tcb.trap_cx.x[2] = user_sp;
                tcb.trap_cx.x[10] = argc;
                tcb.trap_cx.x[11] = argv_base;
            },
            None => {},
        }
    }

    /// Wait for a child: `-1` when no live child matches `pid`, `-2`
    /// when a matching child is still running, else the PID of the
    /// first matching zombie child paired with its exit code; the
    /// child is removed from the caller's children and its PID is
    /// immediately free for reuse.  On `-1` and `-2` nothing changes.
    #[verifier::rlimit(50)]
    pub fn sys_waitpid(&mut self, pid: isize) -> (r: (isize, i32))
        requires
            old(self).wf(),
            old(self).has_current(),
            old(self).processes@.len() <= isize::MAX,
        ensures
            final(self).wf(),
            r.0 == -1 || r.0 == -2 || r.0 >= 0,
            ({
                let me = old(self).cur_pid();
                &&& (r.0 == -1 <==> !exists|i: int| old(self).wait_match(me, i, pid as int))
                &&& (r.0 == -2 <==> ((exists|i: int| old(self).wait_match(me, i, pid as int))
                    && !exists|i: int| old(self).wait_zombie(me, i, pid as int)))
                &&& (r.0 >= 0 <==> exists|i: int| old(self).wait_zombie(me, i, pid as int))
                &&& (r.0 < 0 ==> *final(self) == *old(self))
                &&& (r.0 >= 0 ==> exists|j: int|
                    {
                        &&& #[trigger] old(self).wait_zombie(me, j, pid as int)
                        &&& old(self).processes@[me].children@[j] == r.0
                        &&& r.1 == old(self).processes@[old(self).processes@[me].children@[
                            j] as int].exit_code
                        &&& final(self).processes@[me].children@ == old(self).processes@[me].children@.remove(j)
                    })
                &&& (r.0 >= 0 ==> !final(self).pid_allocator.is_allocated(r.0 as usize)
                    && !final(self).live(r.0 as int) && final(self).manager == old(self).manager
                    && final(self).processor == old(self).processor && final(self).pipes == old(self).pipes && final(self).timers == old(self).timers && (forall|q: int|
                    0 <= q < old(self).processes@.len() && q != me && q != r.0
                        ==> #[trigger] final(self).processes@[q] == old(self).processes@[q]))
            }),
    {
        let me = self.current_process();
        let n = self.processes[me].children.len();
        let ghost ch = self.processes@[me as int].children@;
        let mut any_match: bool = false;
        let mut found: Option<usize> = None;
        let mut found_idx: usize = 0;
        let ghost mut aidx: int = 0;
        let mut i: usize = 0;
        while i < n
            invariant
                me < self.processes@.len(),
                me == old(self).cur_pid(),
                n == ch.len(),
                ch == self.processes@[me as int].children@,
                self.processes@.len() <= isize::MAX,
                i <= n,
                any_match ==> old(self).wait_match(me as int, aidx, pid as int) && aidx < i,
                !any_match ==> forall|k: int|
                    0 <= k < i ==> !(#[trigger] old(self).wait_match(me as int, k, pid as int)),
                found is Some ==> found_idx < i && old(self).wait_zombie(
                    me as int,
                    found_idx as int,
                    pid as int,
                ) && ch[found_idx as int] == found->0,
                found is None ==> forall|k: int|
                    0 <= k < i ==> !(#[trigger] old(self).wait_zombie(me as int, k, pid as int)),
                *self == *old(self),
            decreases n - i,
        {
            let c = self.processes[me].children[i];
            proof {
                assert(ch[i as int] == c);
            }
            if c < self.processes.len() && self.processes[c].alive && (pid == -1 || c as isize
                == pid) {
                if !any_match {
                    proof {
                        aidx = i as int;
                    }
                }
                any_match = true;
                if found.is_none() && self.processes[c].is_zombie {
                    found = Some(c);
                    found_idx = i;
                }
            } else {
                proof {
                    assert(!old(self).wait_match(me as int, i as int, pid as int));
                }
            }
            i = i + 1;
        }
        match found {
            Some(c) => {
                let code = self.processes[c].exit_code;
                // drop the child from the caller's children
                let mut kept: Vec<usize> = Vec::new();
                let mut j: usize = 0;
                while j < n
                    invariant
                        me < self.processes@.len(),
                        n == ch.len(),
                        ch == self.processes@[me as int].children@,
                        found_idx < n,
                        j <= n,
                        kept@ == if j <= found_idx {
                            ch.take(j as int)
                        } else {
                            ch.take(found_idx as int) + ch.subrange(found_idx + 1, j as int)
                        },
                        *self == *old(self),
                    decreases n - j,
                {
                    if j != found_idx {
                        kept.push(self.processes[me].children[j]);
                    }
                    proof {
                        if j + 1 <= found_idx {
                            assert(kept@ =~= ch.take(j + 1));
                        } else if j == found_idx {
                            assert(kept@ =~= ch.take(found_idx as int) + ch.subrange(
                                found_idx + 1,
                                j + 1,
                            ));
                        } else {
                            assert(kept@ =~= ch.take(found_idx as int) + ch.subrange(
                                found_idx + 1,
                                j + 1,
                            ));
                        }
                    }
                    j = j + 1;
                }
                proof {
                    assert(kept@ =~= ch.remove(found_idx as int));
                }
                let ghost mid0 = *self;
                let pme = &mut self.processes[me];
                pme.children = kept;
                let ghost mid1 = *self;
                proof {
                    assert(self.wf()) by {
                        assert forall|k: int|
                            0 <= k < self.pid_allocator.recycled@.len() implies (
                        #[trigger] self.pid_allocator.recycled@[k]) < self.processes@.len()
                            && !self.processes@[self.pid_allocator.recycled@[k] as int].alive by {
                            assert(mid0.pid_allocator.recycled@.contains(
                                mid0.pid_allocator.recycled@[k],
                            ));
                        };
                    };
                }
                let slot = &mut self.processes[c];
                slot.alive = false;
                proof {
                    assert(self.wf()) by {
                        assert forall|k: int|
                            0 <= k < self.pid_allocator.recycled@.len() implies (
                        #[trigger] self.pid_allocator.recycled@[k]) < self.processes@.len()
                            && !self.processes@[self.pid_allocator.recycled@[k] as int].alive by {
                            assert(mid1.pid_allocator.recycled@.contains(
                                mid1.pid_allocator.recycled@[k],
                            ));
                        };
                    };
                    assert(self.pid_allocator.is_allocated(c)) by {
                        assert(old(self).processes@[c as int].alive);
                        if self.pid_allocator.recycled@.contains(c) {
                            let k = choose|k: int|
                                0 <= k < self.pid_allocator.recycled@.len()
                                    && self.pid_allocator.recycled@[k] == c;
                            assert(mid1.pid_allocator.recycled@[k] == c);
                            assert(mid1.pid_allocator.recycled@.contains(c));
                            assert(!old(self).processes@[c as int].alive);
                        }
                    };
                }
                let ghost mid = *self;
                self.pid_allocator.dealloc(c);
                proof {
                    assert(self.wf()) by {
                        assert forall|k: int|
                            0 <= k < self.pid_allocator.recycled@.len() implies (
                        #[trigger] self.pid_allocator.recycled@[k]) < self.processes@.len()
                            && !self.processes@[self.pid_allocator.recycled@[k] as int].alive by {
                            let v = self.pid_allocator.recycled@[k];
                            if k < mid.pid_allocator.recycled@.len() {
                                assert(mid.pid_allocator.recycled@.contains(v));
                            } else {
                                assert(v == c);
                            }
                        };
                    };
                    assert(old(self).wait_zombie(me as int, found_idx as int, pid as int));
                    assert(c <= isize::MAX);
                }
                (c as isize, code)
            },
            None => {
                if any_match {
                    (-2, 0)
                } else {
                    (-1, 0)
                }
            },
        }
    }

    /// End the running process: record the exit code, turn the process
    /// into a zombie with no threads and no descriptors, release its
    /// pipe write ends, hand its children to the initial process, drop
    /// its threads from the ready queue and the timers, and run the
    /// next thread.
    #[verifier::rlimit(60)]
    pub fn exit_current_and_run_next(&mut self, exit_code: i32)
        requires
            old(self).wf(),
            old(self).has_current(),
            old(self).live(0),
            old(self).cur_pid() != 0,
        ensures
            final(self).wf(),
            ({
                let p = final(self).processes@[old(self).cur_pid()];
                p.is_zombie && p.exit_code == exit_code && p.tasks@.len() == 0
                    && p.fd_table@.len() == 0 && p.children@.len() == 0
            }),
            final(self).live(old(self).cur_pid()),
            final(self).processes@[old(self).cur_pid()].signals == old(self).processes@[old(self).cur_pid()].signals,
            final(self).time_ms == old(self).time_ms,
            // the children now belong to the initial process, behind
            // its own
            final(self).processes@[0].children@ == old(self).processes@[0].children@ + old(self).processes@[old(self).cur_pid()].children@ || old(self).cur_pid() == 0,
            // none of the exiting process's threads stays scheduled or
            // sleeping; the next ready thread (if any) runs
            final(self).timers@ == timers_without(old(self).timers@, old(self).cur_pid()),
            ({
                let q1 = queue_without(old(self).manager.ready_queue@, old(self).cur_pid());
                (q1.len() > 0 ==> final(self).processor.current == Some(q1[0]) && final(self).manager.ready_queue@ == q1.drop_first()) && (q1.len() == 0 ==> final(self).processor.current is None && final(self).manager.ready_queue@ == q1)
            }),
            // every pipe write end the process held is released
            forall|rbx: int|
                0 <= rbx < old(self).pipes@.len() ==> ({
                    let w0 = old(self).pipes@[rbx].write_ends as int;
                    let cnt = pw_count(
                        old(self).processes@[old(self).cur_pid()].fd_table@,
                        rbx,
                    );
                    (#[trigger] final(self).pipes@[rbx].write_ends) == if cnt <= w0 {
                        w0 - cnt
                    } else {
                        0int
                    } && final(self).pipes@[rbx].view_bytes() == old(self).pipes@[
                        rbx].view_bytes()
                }),
    {
        let task = self.processor.take_current().unwrap();
        let me = task.pid;
        let ghost pre = *self;
        let ghost ft0 = self.processes@[me as int].fd_table@;
        // release the pipe write ends of the descriptor table
        let nfd = self.processes[me].fd_table.len();
        let mut fi: usize = 0;
        while fi < nfd
            invariant
                me < self.processes@.len(),
                nfd == ft0.len(),
                ft0 == self.processes@[me as int].fd_table@,
                fi <= nfd,
                self.processes == pre.processes,
                self.manager == pre.manager,
                self.processor == pre.processor,
                self.pid_allocator == pre.pid_allocator,
                self.timers == pre.timers,
                self.kstack_allocator == pre.kstack_allocator,
                self.time_ms == pre.time_ms,
                self.pipes@.len() == pre.pipes@.len(),
                forall|rbx: int|
                    0 <= rbx < self.pipes@.len() ==> ({
                        let w0 = pre.pipes@[rbx].write_ends as int;
                        let cnt = pw_count(ft0.take(fi as int), rbx);
                        (#[trigger] self.pipes@[rbx]) == (PipeRingBuffer {
                            write_ends: self.pipes@[rbx].write_ends,
                            ..pre.pipes@[rbx]
                        }) && self.pipes@[rbx].write_ends as int == if cnt <= w0 {
                            w0 - cnt
                        } else {
                            0int
                        }
                    }),
            decreases nfd - fi,
        {
            let e = self.processes[me].fd_table[fi];
            proof {
                assert(ft0.take(fi + 1).drop_last() =~= ft0.take(fi as int));
                assert(ft0.take(fi + 1).last() == ft0[fi as int]);
            }
            match e {
                Some(FdEntry::PipeWrite(rb)) => {
                    if rb < self.pipes.len() {
                        let ring = &mut self.pipes[rb];
                        if ring.write_ends > 0 {
                            ring.write_ends = ring.write_ends - 1;
                        }
                    }
                },
                _ => {},
            }
            fi = fi + 1;
        }
        proof {
            assert(ft0.take(nfd as int) =~= ft0);
            assert forall|rbx: int| 0 <= rbx < self.pipes@.len() implies
                #[trigger] self.pipes@[rbx].view_bytes() == pre.pipes@[rbx].view_bytes() by {
                assert(self.pipes@[rbx].arr == pre.pipes@[rbx].arr);
                assert(self.pipes@[rbx].head == pre.pipes@[rbx].head);
                assert(self.pipes@[rbx].tail == pre.pipes@[rbx].tail);
                assert(self.pipes@[rbx].status == pre.pipes@[rbx].status);
                assert(self.pipes@[rbx].view_bytes() =~= pre.pipes@[rbx].view_bytes());
            };
        }
        let ghost mid_pipes = *self;
        // reparent every child to the initial process
        let nch = self.processes[me].children.len();
        let ghost ch0 = self.processes@[me as int].children@;
        let mut i: usize = 0;
        while i < nch
            invariant
                me < self.processes@.len(),
                0 < self.processes@.len(),
                me != 0,
                nch == ch0.len(),
                ch0 == self.processes@[me as int].children@,
                i <= nch,
                self.processes@.len() == mid_pipes.processes@.len(),
                forall|k: int|
                    0 < k < self.processes@.len() ==> (#[trigger] self.processes@[k]).pid
                        == mid_pipes.processes@[k].pid && self.processes@[k].alive
                        == mid_pipes.processes@[k].alive && self.processes@[k].children
                        == mid_pipes.processes@[k].children && self.processes@[k].signals
                        == mid_pipes.processes@[k].signals,
                self.processes@[0] == (ProcessControlBlock {
                    children: self.processes@[0].children,
                    ..mid_pipes.processes@[0]
                }),
                self.processes@[0].children@ == mid_pipes.processes@[0].children@ + ch0.take(
                    i as int,
                ),
                self.pid_allocator == mid_pipes.pid_allocator,
                self.manager == mid_pipes.manager,
                self.processor == mid_pipes.processor,
                self.timers == mid_pipes.timers,
                self.pipes == mid_pipes.pipes,
                self.time_ms == mid_pipes.time_ms,
            decreases nch - i,
        {
            let c = self.processes[me].children[i];
            let init = &mut self.processes[0];
            init.children.push(c);
            proof {
                assert(self.processes@[0].children@ =~= mid_pipes.processes@[0].children@
                    + ch0.take(i + 1));
            }
            i = i + 1;
        }
        proof {
            assert(ch0.take(nch as int) =~= ch0);
        }
        let p = &mut self.processes[me];
        p.is_zombie = true;
        p.exit_code = exit_code;
        p.children = Vec::new();
        p.tasks = Vec::new();
        p.fd_table = Vec::new();
        proof {
            assert(self.wf()) by {
                assert forall|k: int|
                    0 <= k < self.pid_allocator.recycled@.len() implies (
                #[trigger] self.pid_allocator.recycled@[k]) < self.processes@.len()
                    && !self.processes@[self.pid_allocator.recycled@[k] as int].alive by {
                    assert(pre.pid_allocator.recycled@.contains(pre.pid_allocator.recycled@[k]));
                    assert(self.processes@[self.pid_allocator.recycled@[k] as int].alive
                        == pre.processes@[pre.pid_allocator.recycled@[k] as int].alive);
                };
            };
        }
        // scrub the exiting process's threads from the scheduler state
        let ghost mid2 = *self;
        let ghost q0 = self.manager.ready_queue@;
        let nq = self.manager.ready_queue.len();
        let mut kept_q: Vec<TaskRef> = Vec::new();
        let mut qi: usize = 0;
        while qi < nq
            invariant
                nq == q0.len(),
                q0 == self.manager.ready_queue@,
                qi <= nq,
                kept_q@ == queue_without(q0.take(qi as int), me as int),
                *self == mid2,
            decreases nq - qi,
        {
            let t = self.manager.ready_queue[qi];
            proof {
                assert(q0.take(qi + 1).drop_last() =~= q0.take(qi as int));
                assert(q0.take(qi + 1).last() == q0[qi as int]);
            }
            if !(t.pid == me) {
                kept_q.push(t);
            }
            proof {
                assert(kept_q@ =~= queue_without(q0.take(qi + 1), me as int));
            }
            qi = qi + 1;
        }
        proof {
            assert(q0.take(nq as int) =~= q0);
        }
        self.manager.ready_queue = kept_q;
        let ghost mid3 = *self;
        let ghost t0 = self.timers@;
        let nt = self.timers.len();
        let mut kept_t: Vec<(usize, TaskRef)> = Vec::new();
        let mut ti: usize = 0;
        while ti < nt
            invariant
                nt == t0.len(),
                t0 == self.timers@,
                ti <= nt,
                kept_t@ == timers_without(t0.take(ti as int), me as int),
                *self == mid3,
            decreases nt - ti,
        {
            let t = self.timers[ti];
            proof {
                assert(t0.take(ti + 1).drop_last() =~= t0.take(ti as int));
                assert(t0.take(ti + 1).last() == t0[ti as int]);
            }
            if !(t.1.pid == me) {
                kept_t.push(t);
            }
            proof {
                assert(kept_t@ =~= timers_without(t0.take(ti + 1), me as int));
            }
            ti = ti + 1;
        }
        proof {
            assert(t0.take(nt as int) =~= t0);
        }
        self.timers = kept_t;
        self.run_next();
    }

    /// Exit, as the syscall does.
    pub fn sys_exit(&mut self, exit_code: i32)
        requires
            old(self).wf(),
            old(self).has_current(),
            old(self).live(0),
            old(self).cur_pid() != 0,
        ensures
            final(self).wf(),
            ({
                let p = final(self).processes@[old(self).cur_pid()];
                p.is_zombie && p.exit_code == exit_code
            }),
    {
        self.exit_current_and_run_next(exit_code);
    }

    /// Park the running thread until `ms` milliseconds from now, then
    /// run the next thread.
    pub fn sys_sleep(&mut self, ms: usize) -> (r: isize)
        requires
            old(self).wf(),
            old(self).has_current(),
            old(self).time_ms + ms <= usize::MAX,
        ensures
            final(self).wf(),
            r == 0,
            final(self).timers@ == old(self).timers@.push(
                (
                    (old(self).time_ms + ms) as usize,
                    old(self).processor.current->0,
                ),
            ),
    {
        let task = self.processor.current().unwrap();
        let expire = self.time_ms + ms;
        self.timers.push((expire, task));
        self.block_current_and_run_next();
        0
    }

    /// Advance the clock and wake every sleeper whose time has come,
    /// appending them to the ready queue in timer order; the rest stay,
    /// in order.
    pub fn tick(&mut self, ms: usize)
        requires
            old(self).wf(),
            old(self).time_ms + ms <= usize::MAX,
        ensures
            final(self).wf(),
            final(self).time_ms == old(self).time_ms + ms,
            final(self).manager.ready_queue@ == old(self).manager.ready_queue@ + expired_tasks(
                old(self).timers@,
                old(self).time_ms + ms,
            ),
            final(self).timers@ == kept_timers(old(self).timers@, old(self).time_ms + ms),
            forall|i: int|
                0 <= i < final(self).timers@.len() ==> (#[trigger] final(self).timers@[i]).0
                    > final(self).time_ms,
            final(self).processes == old(self).processes,
            final(self).processor == old(self).processor,
            final(self).pipes == old(self).pipes,
    {
        self.time_ms = self.time_ms + ms;
        let ghost t0 = self.timers@;
        let ghost q0 = self.manager.ready_queue@;
        let ghost now = self.time_ms as int;
        let n = self.timers.len();
        let mut keep: Vec<(usize, TaskRef)> = Vec::new();
        let mut i: usize = 0;
        while i < n
            invariant
                n == t0.len(),
                t0 == self.timers@,
                i <= n,
                self.wf(),
                now == self.time_ms,
                self.time_ms == old(self).time_ms + ms,
                self.manager.ready_queue@ == q0 + expired_tasks(t0.take(i as int), now),
                keep@ == kept_timers(t0.take(i as int), now),
                forall|k: int| 0 <= k < keep@.len() ==> (#[trigger] keep@[k]).0 > self.time_ms,
                self.processes@ == old(self).processes@,
                self.processes == old(self).processes,
                self.processor == old(self).processor,
                self.pipes == old(self).pipes,
                self.pid_allocator == old(self).pid_allocator,
            decreases n - i,
        {
            let t = self.timers[i];
            proof {
                assert(t0.take(i + 1).drop_last() =~= t0.take(i as int));
                assert(t0.take(i + 1).last() == t0[i as int]);
            }
            if t.0 <= self.time_ms {
                self.manager.add(t.1);
                proof {
                    assert(self.manager.ready_queue@ =~= q0 + expired_tasks(t0.take(i + 1), now));
                    assert(keep@ =~= kept_timers(t0.take(i + 1), now));
                }
            } else {
                keep.push(t);
                proof {
                    assert(self.manager.ready_queue@ =~= q0 + expired_tasks(t0.take(i + 1), now));
                    assert(keep@ =~= kept_timers(t0.take(i + 1), now));
                }
            }
            i = i + 1;
        }
        proof {
            assert(t0.take(n as int) =~= t0);
        }
        self.timers = keep;
    }
}

impl Kernel {
    /// Create a mutex in the running process: the lowest free slot of
    /// its mutex list, or a new one; returns the slot id.
    pub fn sys_mutex_create(&mut self, blocking: bool) -> (r: isize)
        requires
            old(self).wf(),
            old(self).has_current(),
            old(self).processes@[old(self).cur_pid()].mutex_list@.len() < isize::MAX,
        ensures
            final(self).wf(),
            r >= 0,
            ({
                let ml = final(self).processes@[old(self).cur_pid()].mutex_list@;
                let ml0 = old(self).processes@[old(self).cur_pid()].mutex_list@;
                &&& r < ml.len()
                &&& ml[r as int] is Some
                &&& (ml[r as int]->0.blocking == blocking)
                &&& !ml[r as int]->0.locked
                &&& (ml[r as int]->0.wait_queue@.len() == 0)
                // the slot is the lowest free one, or the grown tail
                &&& (forall|q: int| 0 <= q < r ==> (#[trigger] ml0[q]) is Some)
                &&& (r < ml0.len() ==> ml0[r as int] is None && ml.len() == ml0.len())
                &&& (r == ml0.len() ==> ml.len() == ml0.len() + 1)
                // no other slot changes
                &&& (forall|q: int| 0 <= q < ml0.len() && q != r ==> #[trigger] ml[q] == ml0[q])
            }),
    {
        let me = self.current_process();
        let ghost pre = *self;
        let m = MutexState { blocking, locked: false, wait_queue: Vec::new() };
        let n = self.processes[me].mutex_list.len();
        let mut id: usize = 0;
        let mut have: bool = false;
        while id < n && !have
            invariant
                me < self.processes@.len(),
                n == self.processes@[me as int].mutex_list@.len(),
                id <= n,
                *self == pre,
                have ==> id < n && (self.processes@[me as int].mutex_list@[id as int] is None),
                forall|q: int|
                    0 <= q < id ==> (#[trigger] self.processes@[me as int].mutex_list@[q])
                        is Some,
            decreases n - id, if have { 0int } else { 1int },
        {
            if self.processes[me].mutex_list[id].is_none() {
                have = true;
            } else {
                id = id + 1;
            }
        }
        let p = &mut self.processes[me];
        let r: usize;
        if have {
            let slot = &mut p.mutex_list[id];
            *slot = Some(m);
            r = id;
        } else {
            p.mutex_list.push(Some(m));
            r = n;
        }
        proof {
            assert(self.wf()) by {
                assert(forall|k: int|
                    0 <= k < self.processes@.len() ==> (#[trigger] self.processes@[k]).pid
                        == pre.processes@[k].pid && self.processes@[k].alive == pre.processes@[k].alive);
            };
            assert(forall|q: int|
                0 <= q < pre.processes@[me as int].mutex_list@.len() && q != r
                    ==> #[trigger] self.processes@[me as int].mutex_list@[q] == pre.processes@[
                    me as int].mutex_list@[q]);
        }
        r as isize
    }

    /// Lock a mutex: take it when free; otherwise join the tail of its
    /// wait queue and block (a spinning mutex instead yields and will
    /// retry).  Returns 0.
    pub fn sys_mutex_lock(&mut self, mutex_id: usize) -> (r: isize)
        requires
            old(self).wf(),
            old(self).has_current(),
            mutex_id < old(self).processes@[old(self).cur_pid()].mutex_list@.len(),
            (old(self).processes@[old(self).cur_pid()].mutex_list@[mutex_id as int] is Some),
        ensures
            final(self).wf(),
            r == 0,
            ({
                let m0 = old(self).processes@[old(self).cur_pid()].mutex_list@[mutex_id as int]->0;
                let m1 = final(self).processes@[old(self).cur_pid()].mutex_list@[
                mutex_id as int]->0;
                if !m0.locked {
                    m1.locked && m1.wait_queue == m0.wait_queue
                } else if m0.blocking {
                    m1.locked && m1.wait_queue@ == m0.wait_queue@.push(
                        old(self).processor.current->0,
                    )
                } else {
                    m1.locked == m0.locked
                }
            }),
    {
        let me = self.current_process();
        let task = self.processor.current().unwrap();
        let ghost pre = *self;
        let p = &mut self.processes[me];
        let slot = &mut p.mutex_list[mutex_id];
        let mut must_block: bool = false;
        let mut acquired: bool = false;
        match slot {
            Some(m) => {
                if !m.locked {
                    m.locked = true;
                    acquired = true;
                } else if m.blocking {
                    m.wait_queue.push(task);
                    must_block = true;
                }
            },
            None => {},
        }
        proof {
            assert(self.wf()) by {
                assert(forall|k: int|
                    0 <= k < self.processes@.len() ==> (#[trigger] self.processes@[k]).pid
                        == pre.processes@[k].pid && self.processes@[k].alive == pre.processes@[k].alive);
            };
        }
        if must_block {
            self.block_current_and_run_next();
        } else if !acquired {
            self.suspend_current_and_run_next();
        }
        0
    }

    /// Unlock a mutex: hand it to the head of its wait queue, waking
    /// that thread, or mark it free.  Returns 0.
    pub fn sys_mutex_unlock(&mut self, mutex_id: usize) -> (r: isize)
        requires
            old(self).wf(),
            old(self).has_current(),
            mutex_id < old(self).processes@[old(self).cur_pid()].mutex_list@.len(),
            (old(self).processes@[old(self).cur_pid()].mutex_list@[mutex_id as int] is Some),
            (old(self).processes@[old(self).cur_pid()].mutex_list@[mutex_id as int]->0.locked),
        ensures
            final(self).wf(),
            r == 0,
            ({
                let m0 = old(self).processes@[old(self).cur_pid()].mutex_list@[mutex_id as int]->0;
                let m1 = final(self).processes@[old(self).cur_pid()].mutex_list@[
                mutex_id as int]->0;
                if m0.wait_queue@.len() > 0 {
                    m1.locked && m1.wait_queue@ == m0.wait_queue@.drop_first() && final(self).manager.ready_queue@ == old(self).manager.ready_queue@.push(
                        m0.wait_queue@[0],
                    )
                } else {
                    !m1.locked && final(self).manager.ready_queue@ == old(self).manager.ready_queue@
                }
            }),
            final(self).processor == old(self).processor,
            final(self).has_current(),
            final(self).processes@.len() == old(self).processes@.len(),
            final(self).processes@[old(self).cur_pid()].condvar_list == old(self).processes@[old(self).cur_pid()].condvar_list,
            forall|i: int|
                0 <= i < old(self).processes@.len() ==> (#[trigger] final(self).processes@[i]).pid
                    == old(self).processes@[i].pid && final(self).processes@[i].alive == old(self).processes@[i].alive,
    {
        let me = self.current_process();
        let ghost pre = *self;
        let p = &mut self.processes[me];
        let slot = &mut p.mutex_list[mutex_id];
        let mut waking: Option<TaskRef> = None;
        match slot {
            Some(m) => {
                if m.wait_queue.len() > 0 {
                    let ghost wq = m.wait_queue@;
                    let t = m.wait_queue.remove(0);
                    proof {
                        assert(m.wait_queue@ =~= wq.drop_first());
                    }
                    waking = Some(t);
                } else {
                    m.locked = false;
                }
            },
            None => {},
        }
        proof {
            assert(self.wf()) by {
                assert(forall|k: int|
                    0 <= k < self.processes@.len() ==> (#[trigger] self.processes@[k]).pid
                        == pre.processes@[k].pid && self.processes@[k].alive == pre.processes@[k].alive);
            };
        }
        match waking {
            Some(t) => {
                self.manager.add(t);
            },
            None => {},
        }
        0
    }

    /// Create a semaphore with `res_count` permits; returns its id.
    pub fn sys_semaphore_create(&mut self, res_count: i32) -> (r: isize)
        requires
            old(self).wf(),
            old(self).has_current(),
            old(self).processes@[old(self).cur_pid()].semaphore_list@.len() < isize::MAX,
        ensures
            final(self).wf(),
            r >= 0,
            ({
                let sl = final(self).processes@[old(self).cur_pid()].semaphore_list@;
                r < sl.len() && sl[r as int] is Some && (sl[r as int]->0.count == res_count)
            }),
    {
        let me = self.current_process();
        let ghost pre = *self;
        let s = SemaphoreState { count: res_count, wait_queue: Vec::new() };
        let p = &mut self.processes[me];
        let n = p.semaphore_list.len();
        p.semaphore_list.push(Some(s));
        proof {
            assert(self.wf()) by {
                assert(forall|k: int|
                    0 <= k < self.processes@.len() ==> (#[trigger] self.processes@[k]).pid
                        == pre.processes@[k].pid && self.processes@[k].alive == pre.processes@[k].alive);
            };
        }
        n as isize
    }

    /// Release one permit; when threads are waiting, hand the permit
    /// to the head of the queue and wake it.  Returns 0.
    pub fn sys_semaphore_up(&mut self, sem_id: usize) -> (r: isize)
        requires
            old(self).wf(),
            old(self).has_current(),
            sem_id < old(self).processes@[old(self).cur_pid()].semaphore_list@.len(),
            (old(self).processes@[old(self).cur_pid()].semaphore_list@[sem_id as int] is Some),
            (old(self).processes@[old(self).cur_pid()].semaphore_list@[sem_id as int]->0.count
                < i32::MAX),
        ensures
            final(self).wf(),
            r == 0,
            ({
                let s0 = old(self).processes@[old(self).cur_pid()].semaphore_list@[
                sem_id as int]->0;
                let s1 = final(self).processes@[old(self).cur_pid()].semaphore_list@[
                sem_id as int]->0;
                &&& s1.count == s0.count + 1
                &&& (s0.count < 0 && s0.wait_queue@.len() > 0 ==> s1.wait_queue@
                    == s0.wait_queue@.drop_first() && final(self).manager.ready_queue@ == old(self).manager.ready_queue@.push(s0.wait_queue@[0]))
                &&& (s0.count >= 0 ==> s1.wait_queue == s0.wait_queue)
            }),
    {
        let me = self.current_process();
        let ghost pre = *self;
        let p = &mut self.processes[me];
        let slot = &mut p.semaphore_list[sem_id];
        let mut waking: Option<TaskRef> = None;
        match slot {
            Some(s) => {
                s.count = s.count + 1;
                if s.count <= 0 && s.wait_queue.len() > 0 {
                    let ghost wq = s.wait_queue@;
                    let t = s.wait_queue.remove(0);
                    proof {
                        assert(s.wait_queue@ =~= wq.drop_first());
                    }
                    waking = Some(t);
                }
            },
            None => {},
        }
        proof {
            assert(self.wf()) by {
                assert(forall|k: int|
                    0 <= k < self.processes@.len() ==> (#[trigger] self.processes@[k]).pid
                        == pre.processes@[k].pid && self.processes@[k].alive == pre.processes@[k].alive);
            };
        }
        match waking {
            Some(t) => {
                self.manager.add(t);
            },
            None => {},
        }
        0
    }

    /// Take one permit, blocking at the tail of the queue when none is
    /// available.  Returns 0.
    pub fn sys_semaphore_down(&mut self, sem_id: usize) -> (r: isize)
        requires
            old(self).wf(),
            old(self).has_current(),
            sem_id < old(self).processes@[old(self).cur_pid()].semaphore_list@.len(),
            (old(self).processes@[old(self).cur_pid()].semaphore_list@[sem_id as int] is Some),
            (old(self).processes@[old(self).cur_pid()].semaphore_list@[sem_id as int]->0.count
                > i32::MIN),
        ensures
            final(self).wf(),
            r == 0,
            ({
                let s0 = old(self).processes@[old(self).cur_pid()].semaphore_list@[
                sem_id as int]->0;
                let s1 = final(self).processes@[old(self).cur_pid()].semaphore_list@[
                sem_id as int]->0;
                &&& s1.count == s0.count - 1
                &&& (s0.count <= 0 ==> s1.wait_queue@ == s0.wait_queue@.push(
                    old(self).processor.current->0,
                ))
                &&& (s0.count > 0 ==> s1.wait_queue == s0.wait_queue)
            }),
    {
        let me = self.current_process();
        let task = self.processor.current().unwrap();
        let ghost pre = *self;
        let p = &mut self.processes[me];
        let slot = &mut p.semaphore_list[sem_id];
        let mut must_block: bool = false;
        match slot {
            Some(s) => {
                s.count = s.count - 1;
                if s.count < 0 {
                    s.wait_queue.push(task);
                    must_block = true;
                }
            },
            None => {},
        }
        proof {
            assert(self.wf()) by {
                assert(forall|k: int|
                    0 <= k < self.processes@.len() ==> (#[trigger] self.processes@[k]).pid
                        == pre.processes@[k].pid && self.processes@[k].alive == pre.processes@[k].alive);
            };
        }
        if must_block {
            self.block_current_and_run_next();
        }
        0
    }

    /// Create a condition variable; returns its id.
    pub fn sys_condvar_create(&mut self) -> (r: isize)
        requires
            old(self).wf(),
            old(self).has_current(),
            old(self).processes@[old(self).cur_pid()].condvar_list@.len() < isize::MAX,
        ensures
            final(self).wf(),
            r >= 0,
            ({
                let cl = final(self).processes@[old(self).cur_pid()].condvar_list@;
                r < cl.len() && cl[r as int] is Some
            }),
    {
        let me = self.current_process();
        let ghost pre = *self;
        let p = &mut self.processes[me];
        let n = p.condvar_list.len();
        p.condvar_list.push(Some(CondvarState { wait_queue: Vec::new() }));
        proof {
            assert(self.wf()) by {
                assert(forall|k: int|
                    0 <= k < self.processes@.len() ==> (#[trigger] self.processes@[k]).pid
                        == pre.processes@[k].pid && self.processes@[k].alive == pre.processes@[k].alive);
            };
        }
        n as isize
    }

    /// Wake the head of the condition variable's wait queue, if any.
    /// Returns 0.
    pub fn sys_condvar_signal(&mut self, condvar_id: usize) -> (r: isize)
        requires
            old(self).wf(),
            old(self).has_current(),
            condvar_id < old(self).processes@[old(self).cur_pid()].condvar_list@.len(),
            (old(self).processes@[old(self).cur_pid()].condvar_list@[condvar_id as int] is Some),
        ensures
            final(self).wf(),
            r == 0,
            ({
                let c0 = old(self).processes@[old(self).cur_pid()].condvar_list@[
                condvar_id as int]->0;
                let c1 = final(self).processes@[old(self).cur_pid()].condvar_list@[
                condvar_id as int]->0;
                if c0.wait_queue@.len() > 0 {
                    c1.wait_queue@ == c0.wait_queue@.drop_first() && final(self).manager.ready_queue@ == old(self).manager.ready_queue@.push(
                        c0.wait_queue@[0],
                    )
                } else {
                    c1.wait_queue@ == c0.wait_queue@ && final(self).manager.ready_queue@ == old(self).manager.ready_queue@
                }
            }),
    {
        let me = self.current_process();
        let ghost pre = *self;
        let p = &mut self.processes[me];
        let slot = &mut p.condvar_list[condvar_id];
        let mut waking: Option<TaskRef> = None;
        match slot {
            Some(c) => {
                if c.wait_queue.len() > 0 {
                    let ghost wq = c.wait_queue@;
                    let t = c.wait_queue.remove(0);
                    proof {
                        assert(c.wait_queue@ =~= wq.drop_first());
                    }
                    waking = Some(t);
                }
            },
            None => {},
        }
        proof {
            assert(self.wf()) by {
                assert(forall|k: int|
                    0 <= k < self.processes@.len() ==> (#[trigger] self.processes@[k]).pid
                        == pre.processes@[k].pid && self.processes@[k].alive == pre.processes@[k].alive);
            };
        }
        match waking {
            Some(t) => {
                self.manager.add(t);
            },
            None => {},
        }
        0
    }

    /// Wait on a condition variable: release the mutex, join the tail
    /// of the condvar's queue and block; the caller re-locks the mutex
    /// after waking.  Returns 0.
    pub fn sys_condvar_wait(&mut self, condvar_id: usize, mutex_id: usize) -> (r: isize)
        requires
            old(self).wf(),
            old(self).has_current(),
            condvar_id < old(self).processes@[old(self).cur_pid()].condvar_list@.len(),
            (old(self).processes@[old(self).cur_pid()].condvar_list@[condvar_id as int] is Some),
            mutex_id < old(self).processes@[old(self).cur_pid()].mutex_list@.len(),
            (old(self).processes@[old(self).cur_pid()].mutex_list@[mutex_id as int] is Some),
            (old(self).processes@[old(self).cur_pid()].mutex_list@[mutex_id as int]->0.locked),
        ensures
            final(self).wf(),
            r == 0,
            ({
                let c0 = old(self).processes@[old(self).cur_pid()].condvar_list@[
                condvar_id as int]->0;
                let c1 = final(self).processes@[old(self).cur_pid()].condvar_list@[
                condvar_id as int]->0;
                c1.wait_queue@ == c0.wait_queue@.push(old(self).processor.current->0)
            }),
    {
        let me = self.current_process();
        let task = self.processor.current().unwrap();
        self.sys_mutex_unlock(mutex_id);
        let ghost pre = *self;
        let p = &mut self.processes[me];
        let slot = &mut p.condvar_list[condvar_id];
        match slot {
            Some(c) => {
                c.wait_queue.push(task);
            },
            None => {},
        }
        proof {
            assert(self.wf()) by {
                assert(forall|k: int|
                    0 <= k < self.processes@.len() ==> (#[trigger] self.processes@[k]).pid
                        == pre.processes@[k].pid && self.processes@[k].alive == pre.processes@[k].alive);
            };
        }
        self.block_current_and_run_next();
        0
    }
}

impl Kernel {
    /// Duplicate an open descriptor into the lowest free slot; `-1`
    /// for a closed or out-of-range descriptor.
    pub fn sys_dup(&mut self, fd: usize) -> (r: isize)
        requires
            old(self).wf(),
            old(self).has_current(),
            old(self).processes@[old(self).cur_pid()].fd_table@.len() < isize::MAX,
            forall|rbx: int|
                0 <= rbx < old(self).pipes@.len() ==> (#[trigger] old(self).pipes@[rbx].write_ends) < usize::MAX,
        ensures
            final(self).wf(),
            r == -1 || r >= 0,
            ({
                let ft = old(self).processes@[old(self).cur_pid()].fd_table@;
                &&& (r == -1 <==> !(fd < ft.len() && ft[fd as int] is Some))
                &&& (r == -1 ==> *final(self) == *old(self))
                &&& (r >= 0 ==> final(self).processes@[old(self).cur_pid()].fd_table@[r as int]
                    == ft[fd as int] && (r < ft.len() ==> ft[r as int] is None) && (forall|q2: int|
                    0 <= q2 < r ==> (#[trigger] ft[q2]) is Some) && (forall|q: int|
                    0 <= q < ft.len() && q != r ==> #[trigger] final(self).processes@[old(self).cur_pid()].fd_table@[q] == ft[q]))
                &&& (r >= 0 && fd_pipe_write(ft[fd as int]) is Some && fd_pipe_write(
                    ft[fd as int],
                )->0 < old(self).pipes@.len() ==> final(self).pipes@[fd_pipe_write(
                    ft[fd as int],
                )->0].write_ends == old(self).pipes@[fd_pipe_write(ft[fd as int])->0].write_ends
                    + 1)
            }),
    {
        let me = self.current_process();
        let ghost pre = *self;
        if fd >= self.processes[me].fd_table.len() || self.processes[me].fd_table[fd].is_none() {
            return -1;
        }
        let entry = self.processes[me].fd_table[fd];
        let p = &mut self.processes[me];
        let new_fd = p.alloc_fd();
        proof {
            assert(new_fd < pre.processes@[me as int].fd_table@.len() + 1);
        }
        proof {
            assert(self.processes@[me as int].fd_table@.len() <= pre.processes@[
                me as int].fd_table@.len() + 1);
            assert(forall|q: int|
                0 <= q < pre.processes@[me as int].fd_table@.len()
                    ==> #[trigger] self.processes@[me as int].fd_table@[q] == pre.processes@[
                    me as int].fd_table@[q]);
        }
        let ghost mid_b = *self;
        let p2 = &mut self.processes[me];
        p2.set_fd(new_fd, entry);
        proof {
            assert(self.wf()) by {
                assert(forall|k: int|
                    0 <= k < self.processes@.len() ==> (#[trigger] self.processes@[k]).pid
                        == pre.processes@[k].pid && self.processes@[k].alive == pre.processes@[k].alive);
            };
            assert(self.processes@[me as int].fd_table@ == mid_b.processes@[
                me as int].fd_table@.update(new_fd as int, entry));
            assert forall|q: int|
                0 <= q < pre.processes@[me as int].fd_table@.len() && q != new_fd implies
                #[trigger] self.processes@[me as int].fd_table@[q] == pre.processes@[
                me as int].fd_table@[q] by {
                assert(self.processes@[me as int].fd_table@[q] == mid_b.processes@[
                    me as int].fd_table@[q]);
                assert(mid_b.processes@[me as int].fd_table@[q] == pre.processes@[
                    me as int].fd_table@[q]);
            };
        }
        // the duplicated capability holds the ring's write end too
        match entry {
            Some(FdEntry::PipeWrite(rb)) => {
                if rb < self.pipes.len() {
                    let ring = &mut self.pipes[rb];
                    ring.write_ends = ring.write_ends + 1;
                }
            },
            _ => {},
        }
        new_fd as isize
    }

    /// Close a descriptor; `-1` when it was not open.  Closing a pipe
    /// write end releases one writer of its ring.
    pub fn sys_close(&mut self, fd: usize) -> (r: isize)
        requires
            old(self).wf(),
            old(self).has_current(),
        ensures
            final(self).wf(),
            r == -1 || r == 0,
            ({
                let ft = old(self).processes@[old(self).cur_pid()].fd_table@;
                &&& (r == -1 <==> !(fd < ft.len() && ft[fd as int] is Some))
                &&& (r == -1 ==> *final(self) == *old(self))
                &&& (r == 0 ==> final(self).processes@[old(self).cur_pid()].fd_table@[fd as int]
                    is None && (forall|q: int|
                    0 <= q < ft.len() && q != fd ==> #[trigger] final(self).processes@[old(self).cur_pid()].fd_table@[q] == ft[q]))
                &&& (r == 0 && fd_pipe_write(ft[fd as int]) is Some && fd_pipe_write(
                    ft[fd as int],
                )->0 < old(self).pipes@.len() ==> ({
                    let w0 = old(self).pipes@[fd_pipe_write(ft[fd as int])->0].write_ends;
                    final(self).pipes@[fd_pipe_write(ft[fd as int])->0].write_ends == if w0 > 0 {
                        w0 - 1
                    } else {
                        0
                    }
                }))
            }),
    {
        let me = self.current_process();
        let ghost pre = *self;
        if fd >= self.processes[me].fd_table.len() || self.processes[me].fd_table[fd].is_none() {
            return -1;
        }
        let p = &mut self.processes[me];
        let entry = p.fd_table[fd];
        let slot = &mut p.fd_table[fd];
        *slot = None;
        proof {
            assert(self.wf()) by {
                assert(forall|k: int|
                    0 <= k < self.processes@.len() ==> (#[trigger] self.processes@[k]).pid
                        == pre.processes@[k].pid && self.processes@[k].alive == pre.processes@[k].alive);
            };
        }
        match entry {
            Some(FdEntry::PipeWrite(rb)) => {
                if rb < self.pipes.len() {
                    let ring = &mut self.pipes[rb];
                    if ring.write_ends > 0 {
                        ring.write_ends = ring.write_ends - 1;
                    }
                }
            },
            _ => {},
        }
        0
    }

    /// Create a pipe: a fresh ring plus a read descriptor and a write
    /// descriptor in the two lowest free slots.
    pub fn sys_pipe(&mut self) -> (r: (usize, usize))
        requires
            old(self).wf(),
            old(self).has_current(),
            old(self).processes@[old(self).cur_pid()].fd_table@.len() + 2 < isize::MAX,
            old(self).pipes@.len() < usize::MAX,
        ensures
            final(self).wf(),
            ({
                let ft = final(self).processes@[old(self).cur_pid()].fd_table@;
                let rb = old(self).pipes@.len() as int;
                &&& r.0 < ft.len() && (ft[r.0 as int] == Some(FdEntry::PipeRead(rb as usize)))
                &&& r.1 < ft.len() && (ft[r.1 as int] == Some(FdEntry::PipeWrite(rb as usize)))
                &&& r.0 != r.1
                &&& final(self).pipes@.len() == old(self).pipes@.len() + 1
                &&& final(self).pipes@[rb].spec_len() == 0
                &&& final(self).pipes@[rb].write_ends == 1
            }),
    {
        let me = self.current_process();
        let ghost pre = *self;
        let rb = self.pipes.len();
        let mut ring = PipeRingBuffer::new();
        ring.set_write_end();
        self.pipes.push(ring);
        let p = &mut self.processes[me];
        let read_fd = p.alloc_fd();
        let slot = &mut p.fd_table[read_fd];
        *slot = Some(FdEntry::PipeRead(rb));
        let write_fd = p.alloc_fd();
        let slot2 = &mut p.fd_table[write_fd];
        *slot2 = Some(FdEntry::PipeWrite(rb));
        proof {
            assert(self.wf()) by {
                assert(forall|k: int|
                    0 <= k < self.processes@.len() ==> (#[trigger] self.processes@[k]).pid
                        == pre.processes@[k].pid && self.processes@[k].alive == pre.processes@[k].alive);
            };
        }
        (read_fd, write_fd)
    }

    /// One round of writing to a descriptor.  The console takes all
    /// bytes; a pipe takes exactly what fits in its ring; `-1` for a
    /// descriptor that is closed or not writable.
    pub fn sys_write(&mut self, fd: usize, buf: &[u8]) -> (r: isize)
        requires
            old(self).wf(),
            old(self).has_current(),
            buf@.len() <= isize::MAX,
        ensures
            final(self).wf(),
            r >= 0 ==> r <= buf@.len(),
            old(self).cur_fd(fd as int) is None ==> r == -1 && *final(self) == *old(self),
            old(self).cur_fd(fd as int) == Some(FdEntry::Stdout) ==> r == buf@.len() && *final(self)
                == *old(self),
            fd_pipe_write(old(self).cur_fd(fd as int)) is Some && fd_pipe_write(
                old(self).cur_fd(fd as int),
            )->0 < old(self).pipes@.len() ==> pipe_write_post(
                *old(self),
                *final(self),
                fd_pipe_write(old(self).cur_fd(fd as int))->0,
                buf@,
                r as int,
            ),
    {
        let me = self.current_process();
        let ghost pre = *self;
        let nfd = self.processes[me].fd_table.len();
        if fd >= nfd || self.processes[me].fd_table[fd].is_none() {
            return -1;
        }
        let entry = self.processes[me].fd_table[fd];
        match entry {
            Some(FdEntry::Stdout) => buf.len() as isize,
            Some(FdEntry::PipeWrite(rb)) => {
                if rb >= self.pipes.len() {
                    return -1;
                }
                let ghost ring0 = self.pipes@[rb as int];
                let mut written: usize = 0;
                let n = buf.len();
                while written < n && self.pipes[rb].available_write() > 0
                    invariant
                        rb < self.pipes@.len(),
                        self.pipes@.len() == pre.pipes@.len(),
                        written <= n,
                        n == buf@.len(),
                        ring0 == pre.pipes@[rb as int],
                        self.pipes@[rb as int].wf(),
                        self.pipes@[rb as int].spec_len() == ring0.spec_len() + written,
                        self.pipes@[rb as int].view_bytes() == ring0.view_bytes() + buf@.take(
                            written as int,
                        ),
                        self.pipes@[rb as int].write_ends == ring0.write_ends,
                        self.processes == pre.processes,
                        self.manager == pre.manager,
                        self.processor == pre.processor,
                        self.pid_allocator == pre.pid_allocator,
                        self.timers == pre.timers,
                        self.kstack_allocator == pre.kstack_allocator,
                        self.time_ms == pre.time_ms,
                        forall|k: int|
                            0 <= k < self.pipes@.len() && k != rb ==> #[trigger] self.pipes@[k]
                                == pre.pipes@[k],
                        pre.wf(),
                        me == pre.cur_pid(),
                    decreases n - written,
                {
                    let ring = &mut self.pipes[rb];
                    ring.write_byte(buf[written]);
                    written = written + 1;
                    proof {
                        assert(self.pipes@[rb as int].view_bytes() =~= ring0.view_bytes()
                            + buf@.take(written as int));
                    }
                }
                proof {
                    if written < n {
                        assert(ring0.spec_len() + written == RING_BUFFER_SIZE);
                    }
                    assert(written as int == if n <= RING_BUFFER_SIZE - ring0.spec_len() {
                        n as int
                    } else {
                        RING_BUFFER_SIZE - ring0.spec_len()
                    });
                }
                written as isize
            },
            _ => -1,
        }
    }

    /// One round of reading from a descriptor, up to `len` bytes: a
    /// pipe delivers exactly the oldest bytes its ring holds, up to
    /// `len`.  On a drained ring, `0` means end of stream (every
    /// writer is closed) and `-2` asks the caller to retry after
    /// yielding; the console delivers nothing here (its bytes arrive
    /// from hardware outside this model), and `-1` marks a descriptor
    /// that is closed or not readable.
    pub fn sys_read(&mut self, fd: usize, len: usize) -> (r: (isize, Vec<u8>))
        requires
            old(self).wf(),
            old(self).has_current(),
            len <= isize::MAX,
        ensures
            final(self).wf(),
            r.0 >= 0 ==> r.1@.len() == r.0 && r.0 <= len,
            old(self).cur_fd(fd as int) is None ==> r.0 == -1 && *final(self) == *old(self),
            old(self).cur_fd(fd as int) == Some(FdEntry::Stdin) ==> r.0 == -2 && *final(self)
                == *old(self),
            fd_pipe_read(old(self).cur_fd(fd as int)) is Some && fd_pipe_read(
                old(self).cur_fd(fd as int),
            )->0 < old(self).pipes@.len() ==> pipe_read_post(
                *old(self),
                *final(self),
                fd_pipe_read(old(self).cur_fd(fd as int))->0,
                len as int,
                r.0 as int,
                r.1@,
            ),
    {
        let me = self.current_process();
        let ghost pre = *self;
        let nfd = self.processes[me].fd_table.len();
        let mut out: Vec<u8> = Vec::new();
        if fd >= nfd || self.processes[me].fd_table[fd].is_none() {
            return (-1, out);
        }
        let entry = self.processes[me].fd_table[fd];
        match entry {
            Some(FdEntry::PipeRead(rb)) => {
                if rb >= self.pipes.len() {
                    return (-1, out);
                }
                let ghost ring0 = self.pipes@[rb as int];
                let mut got: usize = 0;
                while got < len && self.pipes[rb].available_read() > 0
                    invariant
                        rb < self.pipes@.len(),
                        self.pipes@.len() == pre.pipes@.len(),
                        got <= len,
                        out@.len() == got,
                        ring0 == pre.pipes@[rb as int],
                        self.pipes@[rb as int].wf(),
                        self.pipes@[rb as int].spec_len() == ring0.spec_len() - got,
                        got <= ring0.spec_len(),
                        out@ == ring0.view_bytes().take(got as int),
                        self.pipes@[rb as int].view_bytes() == ring0.view_bytes().skip(
                            got as int,
                        ),
                        self.pipes@[rb as int].write_ends == ring0.write_ends,
                        self.processes == pre.processes,
                        self.manager == pre.manager,
                        self.processor == pre.processor,
                        self.pid_allocator == pre.pid_allocator,
                        self.timers == pre.timers,
                        self.kstack_allocator == pre.kstack_allocator,
                        self.time_ms == pre.time_ms,
                        forall|k: int|
                            0 <= k < self.pipes@.len() && k != rb ==> #[trigger] self.pipes@[k]
                                == pre.pipes@[k],
                        pre.wf(),
                        me == pre.cur_pid(),
                    decreases len - got,
                {
                    let ring = &mut self.pipes[rb];
                    let b = ring.read_byte();
                    out.push(b);
                    got = got + 1;
                    proof {
                        assert(out@ =~= ring0.view_bytes().take(got as int));
                        assert(self.pipes@[rb as int].view_bytes() =~= ring0.view_bytes().skip(
                            got as int,
                        ));
                    }
                }
                proof {
                    if got < len {
                        assert(ring0.spec_len() - got == 0);
                    }
                }
                if got == 0 && len > 0 {
                    let ring = &self.pipes[rb];
                    if ring.all_write_ends_closed() {
                        (0, out)
                    } else {
                        (-2, out)
                    }
                } else {
                    (got as isize, out)
                }
            },
            Some(FdEntry::Stdin) => (-2, out),
            _ => (-1, out),
        }
    }

    /// Create a thread in the running process, starting at `entry`
    /// with `arg` in its first argument register; returns its tid.
    pub fn sys_thread_create(&mut self, entry: usize, arg: usize) -> (r: isize)
        requires
            old(self).wf(),
            old(self).has_current(),
            old(self).processes@[old(self).cur_pid()].tasks@.len() < isize::MAX,
            old(self).kstack_allocator.wf(),
            old(self).kstack_allocator.current < usize::MAX,
        ensures
            final(self).wf(),
            r >= 0,
            ({
                let ts = final(self).processes@[old(self).cur_pid()].tasks@;
                &&& r < ts.len()
                &&& ts[r as int] is Some
                &&& (ts[r as int]->0.trap_cx.sepc == entry)
                &&& (ts[r as int]->0.trap_cx.x[10] == arg)
            }),
            final(self).manager.ready_queue@ == old(self).manager.ready_queue@.push(
                TaskRef { pid: old(self).processor.current->0.pid, tid: r as usize },
            ),
    {
        let me = self.current_process();
        let ghost pre = *self;
        let kstack = self.kstack_allocator.allocate();
        let mut trap_cx = TrapContext::app_init_context(entry, 0, 0, 0, 0);
        trap_cx.x[10] = arg;
        let tcb = TaskControlBlock {
            tid: 0,
            kstack,
            trap_cx,
            task_cx: TaskContext::goto_trap_return(0),
            task_status: TaskStatus::Ready,
            exit_code: None,
            res: true,
        };
        let p = &mut self.processes[me];
        let tid = p.tasks.len();
        p.tasks.push(Some(tcb));
        proof {
            assert(self.wf()) by {
                assert(forall|k: int|
                    0 <= k < self.processes@.len() ==> (#[trigger] self.processes@[k]).pid
                        == pre.processes@[k].pid && self.processes@[k].alive == pre.processes@[k].alive);
            };
        }
        self.manager.add(TaskRef { pid: me, tid });
        tid as isize
    }

    /// The running thread's id.
    pub fn sys_gettid(&self) -> (r: isize)
        requires
            self.has_current(),
            self.processor.current->0.tid <= isize::MAX,
        ensures
            r == self.processor.current->0.tid,
    {
        self.processor.current().unwrap().tid as isize
    }

    /// Wait for a thread of the running process: `-1` when `tid` names
    /// no thread, `-2` while it runs, else its exit code, freeing the
    /// slot.
    pub fn sys_waittid(&mut self, tid: usize) -> (r: isize)
        requires
            old(self).wf(),
            old(self).has_current(),
        ensures
            final(self).wf(),
            ({
                let ts = old(self).processes@[old(self).cur_pid()].tasks@;
                &&& ((tid >= ts.len() || ts[tid as int] is None) ==> r == -1)
                &&& ((tid < ts.len() && ts[tid as int] is Some && ts[tid as int]->0.exit_code
                    is None) ==> r == -2)
                &&& ((tid < ts.len() && ts[tid as int] is Some && ts[tid as int]->0.exit_code
                    is Some) ==> r == ts[tid as int]->0.exit_code->0
                    && final(self).processes@[old(self).cur_pid()].tasks@[tid as int] is None)
            }),
    {
        let me = self.current_process();
        let ghost pre = *self;
        let p = &mut self.processes[me];
        if tid >= p.tasks.len() {
            return -1;
        }
        let mut r: isize = -1;
        let mut clear: bool = false;
        let slot = &mut p.tasks[tid];
        match slot {
            Some(tcb) => {
                match tcb.exit_code {
                    Some(code) => {
                        r = code as isize;
                        clear = true;
                    },
                    None => {
                        r = -2;
                    },
                }
            },
            None => {
                r = -1;
            },
        }
        if clear {
            let slot2 = &mut p.tasks[tid];
            *slot2 = None;
        }
        proof {
            assert(self.wf()) by {
                assert(forall|k: int|
                    0 <= k < self.processes@.len() ==> (#[trigger] self.processes@[k]).pid
                        == pre.processes@[k].pid && self.processes@[k].alive == pre.processes@[k].alive);
            };
        }
        r
    }

    /// End the running thread with `exit_code`, keeping its slot for
    /// `sys_waittid` to reap, and run the next thread.
    pub fn exit_current_thread(&mut self, exit_code: i32)
        requires
            old(self).wf(),
            old(self).has_current(),
            old(self).processor.current->0.tid < old(self).processes@[old(self).cur_pid()].tasks@.len(),
        ensures
            final(self).wf(),
            ({
                let t = final(self).processes@[old(self).cur_pid()].tasks@[old(self).processor.current->0.tid as int];
                t is Some ==> t->0.exit_code == Some(exit_code)
            }),
    {
        let task = self.processor.take_current().unwrap();
        let ghost pre = *self;
        let p = &mut self.processes[task.pid];
        let slot = &mut p.tasks[task.tid];
        match slot {
            Some(tcb) => {
                tcb.exit_code = Some(exit_code);
                tcb.res = false;
            },
            None => {},
        }
        proof {
            assert(self.wf()) by {
                assert(forall|k: int|
                    0 <= k < self.processes@.len() ==> (#[trigger] self.processes@[k]).pid
                        == pre.processes@[k].pid && self.processes@[k].alive == pre.processes@[k].alive);
            };
        }
        self.run_next();
    }
}

/// The trap causes the kernel distinguishes: environment call, memory
/// faults, illegal instruction, and the preemption timer.
#[derive(Clone, Copy, PartialEq, Eq, Structural, Debug)]
pub enum TrapCause {
    UserEnvCall,
    StorePageFault,
    LoadPageFault,
    IllegalInstruction,
    SupervisorTimer,
}

impl Kernel {
    /// The register-argument system-call dispatcher: every id of the
    /// call table whose arguments are plain words is routed to its
    /// verified transition; an unknown id, and the calls whose
    /// arguments live in user memory (`open`, `read`, `write`,
    /// `exec`), return `-1` here — their byte-carrying counterparts
    /// stand beside the kernel as typed entry points.  An id whose
    /// object argument names no live object returns `-1`, the
    /// argument-error convention.
    #[verifier::rlimit(100)]
    pub fn syscall(&mut self, id: usize, a0: usize, a1: usize, a2: usize) -> (r: isize)
        requires
            old(self).wf(),
            old(self).has_current(),
            old(self).live(0),
            old(self).cur_pid() != 0,
            old(self).processes@.len() < isize::MAX,
            old(self).kstack_allocator.wf(),
            old(self).kstack_allocator.current < usize::MAX,
            old(self).time_ms + a0 <= usize::MAX,
            old(self).time_ms <= isize::MAX,
            old(self).cur_pid() <= isize::MAX,
            old(self).processor.current->0.tid <= isize::MAX,
            (old(self).processes@[old(self).cur_pid()].tasks@[0] is Some),
            0 < old(self).processes@[old(self).cur_pid()].tasks@.len(),
            old(self).processes@[old(self).cur_pid()].tasks@.len() < isize::MAX,
            old(self).processes@[old(self).cur_pid()].fd_table@.len() + 2 < isize::MAX,
            old(self).processes@[old(self).cur_pid()].mutex_list@.len() < isize::MAX,
            old(self).processes@[old(self).cur_pid()].semaphore_list@.len() < isize::MAX,
            old(self).processes@[old(self).cur_pid()].condvar_list@.len() < isize::MAX,
            old(self).pipes@.len() < usize::MAX,
            a0 <= i32::MAX,
            forall|rbx: int|
                0 <= rbx < old(self).pipes@.len() ==> (#[trigger] old(self).pipes@[rbx].write_ends) + old(self).processes@[old(self).cur_pid()].fd_table@.len() < usize::MAX,
        ensures
            final(self).wf(),
            !(id == 24 || id == 57 || id == 59 || id == 93 || id == 101 || id == 124 || id == 129
                || id == 169 || id == 172 || id == 220 || id == 260 || id == 1000 || id == 1001
                || id == 1002 || id == 1010 || id == 1011 || id == 1012 || id == 1020 || id
                == 1021 || id == 1022 || id == 1030 || id == 1031 || id == 1032) ==> r == -1
                && *final(self) == *old(self),
            id == 93 ==> final(self).processes@[old(self).cur_pid()].is_zombie && final(self).processes@[old(self).cur_pid()].exit_code == a0 as i32 && r == 0,
            id == 124 ==> r == 0 && final(self).manager.ready_queue@.len() == old(self).manager.ready_queue@.len(),
            id == 169 ==> r == old(self).time_ms && *final(self) == *old(self),
            id == 172 ==> r == old(self).cur_pid() && *final(self) == *old(self),
            id == 220 ==> r > 0 && final(self).live(r as int) && (final(self).processes@[
                r as int].tasks@[0]->0.trap_cx.x[10] == 0) && final(self).manager.ready_queue@
                == old(self).manager.ready_queue@.push(TaskRef { pid: r as usize, tid: 0 }),
            id == 260 ==> (r == -1 || r == -2 || r >= 0) && (r == -1 <==> !exists|i: int|
                #[trigger] old(self).wait_match(old(self).cur_pid(), i, a0 as isize as int)) && (r
                >= 0 <==> exists|i: int|
                #[trigger] old(self).wait_zombie(old(self).cur_pid(), i, a0 as isize as int)),
            id == 101 ==> r == 0 && final(self).timers@ == old(self).timers@.push(
                ((old(self).time_ms + a0) as usize, old(self).processor.current->0),
            ),
            id == 129 ==> (r == 0 <==> (a1 as u32) <= crate::config::MAX_SIG && old(self).live(
                a0 as int,
            )),
            id == 1001 ==> r == old(self).processor.current->0.tid && *final(self) == *old(self),
            id == 1010 ==> r >= 0,
            id == 59 ==> r == 0 && final(self).pipes@.len() == old(self).pipes@.len() + 1,
    {
        if id == 24 {
            self.sys_dup(a0)
        } else if id == 57 {
            self.sys_close(a0)
        } else if id == 59 {
            let fds = self.sys_pipe();
            0
        } else if id == 93 {
            self.sys_exit(a0 as i32);
            0
        } else if id == 101 {
            self.sys_sleep(a0)
        } else if id == 124 {
            self.sys_yield()
        } else if id == 129 {
            self.sys_kill(a0, a1 as u32)
        } else if id == 169 {
            self.sys_get_time()
        } else if id == 172 {
            self.sys_getpid()
        } else if id == 220 {
            self.sys_fork()
        } else if id == 260 {
            let pair = self.sys_waitpid(a0 as isize);
            pair.0
        } else if id == 1000 {
            self.sys_thread_create(a0, a1)
        } else if id == 1001 {
            self.sys_gettid()
        } else if id == 1002 {
            self.sys_waittid(a0)
        } else if id == 1010 {
            self.sys_mutex_create(a0 != 0)
        } else if id == 1011 {
            let me = self.current_process();
            if a0 < self.processes[me].mutex_list.len() && self.processes[me].mutex_list[a0]
                .is_some() {
                self.sys_mutex_lock(a0)
            } else {
                -1
            }
        } else if id == 1012 {
            let me = self.current_process();
            if a0 < self.processes[me].mutex_list.len() && self.processes[me].mutex_list[a0]
                .is_some() && ({
                let locked = match &self.processes[me].mutex_list[a0] {
                    Some(m) => m.locked,
                    None => false,
                };
                locked
            }) {
                self.sys_mutex_unlock(a0)
            } else {
                -1
            }
        } else if id == 1020 {
            self.sys_semaphore_create(a0 as i32)
        } else if id == 1021 {
            let me = self.current_process();
            let ok = a0 < self.processes[me].semaphore_list.len() && ({
                let fine = match &self.processes[me].semaphore_list[a0] {
                    Some(sm) => sm.count < i32::MAX,
                    None => false,
                };
                fine
            });
            if ok {
                self.sys_semaphore_up(a0)
            } else {
                -1
            }
        } else if id == 1022 {
            let me = self.current_process();
            let ok = a0 < self.processes[me].semaphore_list.len() && ({
                let fine = match &self.processes[me].semaphore_list[a0] {
                    Some(sm) => sm.count > i32::MIN,
                    None => false,
                };
                fine
            });
            if ok {
                self.sys_semaphore_down(a0)
            } else {
                -1
            }
        } else if id == 1030 {
            self.sys_condvar_create()
        } else if id == 1031 {
            let me = self.current_process();
            if a0 < self.processes[me].condvar_list.len() && self.processes[me].condvar_list[a0]
                .is_some() {
                self.sys_condvar_signal(a0)
            } else {
                -1
            }
        } else if id == 1032 {
            let me = self.current_process();
            let ok = a0 < self.processes[me].condvar_list.len() && self.processes[me]
                .condvar_list[a0].is_some() && a1 < self.processes[me].mutex_list.len() && ({
                let locked = match &self.processes[me].mutex_list[a1] {
                    Some(m) => m.locked,
                    None => false,
                };
                locked
            });
            if ok {
                self.sys_condvar_wait(a0, a1)
            } else {
                -1
            }
        } else {
            -1
        }
    }

    /// The trap handler's decision function, per cause: an environment
    /// call advances the program counter past the `ecall` and runs the
    /// dispatcher, writing the result into the calling thread's return
    /// register; a memory fault or illegal instruction adds the
    /// corresponding signal; the timer advances the clock, wakes the
    /// expired sleepers and preempts the caller to the tail of the
    /// ready queue.  Afterwards, a fatal pending signal ends the
    /// process with its conventional exit code; `r.1` carries that
    /// code when it happened, `r.0` the dispatcher's result.
    #[verifier::rlimit(100)]
    pub fn handle_trap(&mut self, cause: TrapCause, tick_ms: usize) -> (r: (
        Option<isize>,
        Option<i32>,
    ))
        requires
            old(self).wf(),
            old(self).has_current(),
            old(self).live(0),
            old(self).cur_pid() != 0,
            old(self).processes@.len() < isize::MAX,
            old(self).kstack_allocator.wf(),
            old(self).kstack_allocator.current < usize::MAX,
            old(self).time_ms <= isize::MAX,
            old(self).cur_pid() <= isize::MAX,
            old(self).processor.current->0.tid < old(self).processes@[old(self).cur_pid()].tasks@.len(),
            (old(self).processes@[old(self).cur_pid()].tasks@[old(self).processor.current->0.tid as int] is Some),
            (old(self).processes@[old(self).cur_pid()].tasks@[0] is Some),
            old(self).processes@[old(self).cur_pid()].tasks@.len() < isize::MAX,
            old(self).processes@[old(self).cur_pid()].fd_table@.len() + 2 < isize::MAX,
            old(self).processes@[old(self).cur_pid()].mutex_list@.len() < isize::MAX,
            old(self).processes@[old(self).cur_pid()].semaphore_list@.len() < isize::MAX,
            old(self).processes@[old(self).cur_pid()].condvar_list@.len() < isize::MAX,
            old(self).pipes@.len() < usize::MAX,
            old(self).time_ms + tick_ms <= usize::MAX,
            ({
                let t = old(self).processes@[old(self).cur_pid()].tasks@[old(self).processor.current->0.tid as int]->0.trap_cx;
                t.sepc + 4 <= usize::MAX && old(self).time_ms + t.x[10] <= usize::MAX && t.x[10]
                    <= i32::MAX
            }),
            forall|rbx: int|
                0 <= rbx < old(self).pipes@.len() ==> (#[trigger] old(self).pipes@[rbx].write_ends) + old(self).processes@[old(self).cur_pid()].fd_table@.len() < usize::MAX,
        ensures
            final(self).wf(),
            cause is UserEnvCall ==> r.0 is Some,
            // when the calling thread is still in place, its return
            // register holds the dispatcher's result (the program
            // counter was stepped past the `ecall` before dispatch)
            (cause is UserEnvCall && r.1 is None && old(self).cur_pid() < final(self).processes@.len() && old(self).processor.current->0.tid < final(self).processes@[old(self).cur_pid()].tasks@.len() && (final(self).processes@[old(self).cur_pid()].tasks@[old(self).processor.current->0.tid as int] is Some)) ==> ({
                let t1 = final(self).processes@[old(self).cur_pid()].tasks@[old(self).processor.current->0.tid as int]->0.trap_cx;
                t1.x[10] == r.0->0 as usize
            }),
            cause is StorePageFault || cause is LoadPageFault ==> final(self).processes@[old(self).cur_pid()].signals.spec_has(crate::signal::SIGSEGV) && r.0 is None,
            cause is IllegalInstruction ==> final(self).processes@[old(self).cur_pid()].signals.spec_has(crate::signal::SIGILL) && r.0 is None,
            cause is SupervisorTimer ==> final(self).time_ms == old(self).time_ms + tick_ms
                && r.0 is None,
            // a fatal pending signal ended the process with its code
            r.1 matches Some(code) ==> final(self).processes@[old(self).cur_pid()].is_zombie
                && final(self).processes@[old(self).cur_pid()].exit_code == code && code < 0,
    {
        let task = self.processor.current().unwrap();
        let me = task.pid;
        let mut result: Option<isize> = None;
        match cause {
            TrapCause::UserEnvCall => {
                // read the call id and arguments from the saved
                // registers, step past the ecall, dispatch, and write
                // the result back
                let (id, a0, a1, a2, sepc) = {
                    let t = match &self.processes[me].tasks[task.tid] {
                        Some(tcb) => (
                            tcb.trap_cx.x[17],
                            tcb.trap_cx.x[10],
                            tcb.trap_cx.x[11],
                            tcb.trap_cx.x[12],
                            tcb.trap_cx.sepc,
                        ),
                        None => (0, 0, 0, 0, 0),
                    };
                    t
                };
                let p = &mut self.processes[me];
                let slot = &mut p.tasks[task.tid];
                match slot {
                    Some(tcb) => {
                        tcb.trap_cx.sepc = sepc + 4;
                    },
                    None => {},
                }
                proof {
                    assert(self.wf()) by {
                        assert(forall|k: int|
                            0 <= k < self.processes@.len() ==> (#[trigger] self.processes@[k]).pid
                                == old(self).processes@[k].pid && self.processes@[k].alive == old(self).processes@[k].alive);
                    };
                }
                let rv = self.syscall(id, a0, a1, a2);
                result = Some(rv);
                if task.pid < self.processes.len() {
                    let p = &mut self.processes[task.pid];
                    if task.tid < p.tasks.len() {
                        let slot = &mut p.tasks[task.tid];
                        match slot {
                            Some(tcb) => {
                                tcb.trap_cx.x[10] = rv as usize;
                            },
                            None => {},
                        }
                    }
                    proof {
                        assert(self.wf()) by {
                            assert(forall|k: int|
                                0 <= k < self.processes@.len() ==> (
                                #[trigger] self.processes@[k]).pid == old(self).processes@[k].pid
                                    || true);
                        };
                    }
                }
            },
            TrapCause::StorePageFault => {
                self.current_add_signal(crate::signal::SignalFlags::single(
                    crate::signal::SIGSEGV,
                ));
            },
            TrapCause::LoadPageFault => {
                self.current_add_signal(crate::signal::SignalFlags::single(
                    crate::signal::SIGSEGV,
                ));
            },
            TrapCause::IllegalInstruction => {
                self.current_add_signal(crate::signal::SignalFlags::single(
                    crate::signal::SIGILL,
                ));
            },
            TrapCause::SupervisorTimer => {
                self.tick(tick_ms);
                if self.processor.current().is_some() && self.has_current_check() {
                    self.suspend_current_and_run_next();
                }
            },
        }
        // a fatal pending signal ends the process now
        let mut fatal: Option<i32> = None;
        if self.processor.current().is_some() && self.has_current_check() {
            let cur = self.current_process();
            if cur == me && cur != 0 && 0 < self.processes.len() && self.processes[0].alive {
                match self.check_signals_of_current() {
                    Some((code, _msg)) => {
                        self.exit_current_and_run_next(code);
                        fatal = Some(code);
                    },
                    None => {},
                }
            }
        }
        (result, fatal)
    }

    /// Whether the processor's current thread names a live process.
    fn has_current_check(&self) -> (r: bool)
        ensures
            r == self.has_current(),
    {
        match self.processor.current {
            Some(t) => t.pid < self.processes.len() && self.processes[t.pid].alive,
            None => false,
        }
    }
}


/// The bytes that the first `n` command-line arguments occupy on the
/// user stack, each with its terminating NUL byte.
pub open spec fn arg_area(args: Seq<Vec<u8>>, n: int) -> int
    decreases n,
{
    if n <= 0 {
        0
    } else {
        arg_area(args, n - 1) + args[n - 1]@.len() + 1
    }
}

/// The argument area only grows with the number of arguments placed.
pub proof fn lemma_arg_area_mono(args: Seq<Vec<u8>>, i: int, n: int)
    requires
        0 <= i <= n,
    ensures
        0 <= arg_area(args, i) <= arg_area(args, n),
    decreases n,
{
    if i < n {
        lemma_arg_area_mono(args, i, n - 1);
    } else if 0 < n {
        lemma_arg_area_mono(args, i - 1, n - 1);
    }
}

/// Lay the command-line arguments out under `top` on the user stack:
/// first the argv pointer array, one slot per argument plus a NUL
/// slot, then the argument strings, each NUL-terminated, and finally
/// the stack pointer aligned down to eight bytes.  Returns the final
/// stack pointer and the argv pointers, highest argument first in
/// memory, in argument order in the vector.
pub fn argv_layout(top: usize, args: &Vec<Vec<u8>>) -> (r: (usize, Vec<usize>))
    requires
        (args@.len() + 1) * 8 + arg_area(args@, args@.len() as int) <= top,
    ensures
        r.1@.len() == args@.len(),
        forall|i: int|
            0 <= i < args@.len() ==> #[trigger] r.1@[i] == top - (args@.len() + 1) * 8 - arg_area(
                args@,
                i + 1,
            ),
        r.0 == ({
            let lo = top - (args@.len() + 1) * 8 - arg_area(args@, args@.len() as int);
            lo - lo % 8
        }),
        r.0 % 8 == 0,
{
    let n = args.len();
    proof {
        lemma_arg_area_mono(args@, 0, n as int);
    }
    let base = top - (n + 1) * 8;
    let mut sp = base;
    let mut ptrs: Vec<usize> = Vec::new();
    let mut i: usize = 0;
    while i < n
        invariant
            n == args@.len(),
            (n + 1) * 8 + arg_area(args@, n as int) <= top,
            base == top - (n + 1) * 8,
            i <= n,
            sp == base - arg_area(args@, i as int),
            ptrs@.len() == i,
            forall|j: int|
                0 <= j < i ==> #[trigger] ptrs@[j] == base - arg_area(args@, j + 1),
        decreases n - i,
    {
        proof {
            lemma_arg_area_mono(args@, i as int, i + 1);
            lemma_arg_area_mono(args@, i + 1, n as int);
        }
        let l = args[i].len();
        sp = sp - (l + 1);
        ptrs.push(sp);
        i = i + 1;
    }
    let aligned = sp - sp % 8;
    proof {
        assert(aligned % 8 == 0) by (nonlinear_arith)
            requires
                aligned == sp - sp % 8,
                sp >= 0,
        ;
    }
    (aligned, ptrs)
}

} // verus!
