//! The user library: the calls a user program makes.
//!
//! Each function forwards to the kernel it is given, exactly as the
//! running system's stubs trap into the kernel proper.  The waiting
//! calls make one attempt and report "would block"; their callers
//! yield and retry.

use vstd::prelude::*;

use crate::kernel::Kernel;
use crate::task::TaskRef;
use crate::usersyscall;

verus! {

/// Duplicate descriptor `fd` into the lowest free slot.
pub fn dup(k: &mut Kernel, fd: usize) -> (r: isize)
    requires
        old(k).wf(),
        old(k).has_current(),
        old(k).processes@[old(k).cur_pid()].fd_table@.len() < isize::MAX,
        forall|rbx: int|
            0 <= rbx < old(k).pipes@.len() ==> (#[trigger] old(k).pipes@[rbx].write_ends)
                < usize::MAX,
    ensures
        final(k).wf(),
        r == -1 || r >= 0,
        r == -1 <==> !(fd < old(k).processes@[old(k).cur_pid()].fd_table@.len() && old(k).processes@[old(k).cur_pid()].fd_table@[fd as int] is Some),
        r >= 0 ==> final(k).processes@[old(k).cur_pid()].fd_table@[r as int] == old(k).processes@[old(k).cur_pid()].fd_table@[fd as int],
{
    k.sys_dup(fd)
}

/// Open a file by name: not routed in this model; returns `-1`.
pub fn open(k: &mut Kernel, path: &str, flags: u32) -> (r: isize)
    ensures
        r == -1,
        *final(k) == *old(k),
{
    usersyscall::sys_open(k, path, flags)
}

/// Close descriptor `fd`.
pub fn close(k: &mut Kernel, fd: usize) -> (r: isize)
    requires
        old(k).wf(),
        old(k).has_current(),
    ensures
        final(k).wf(),
        r == -1 || r == 0,
        r == -1 <==> old(k).cur_fd(fd as int) is None,
        r == -1 ==> *final(k) == *old(k),
        r == 0 ==> final(k).processes@[old(k).cur_pid()].fd_table@[fd as int] is None,
{
    usersyscall::sys_close(k, fd)
}

/// Create a pipe; the read and write descriptors come back by value.
pub fn pipe(k: &mut Kernel) -> (r: (usize, usize))
    requires
        old(k).wf(),
        old(k).has_current(),
        old(k).processes@[old(k).cur_pid()].fd_table@.len() + 2 < isize::MAX,
        old(k).pipes@.len() < usize::MAX,
    ensures
        final(k).wf(),
        final(k).pipes@.len() == old(k).pipes@.len() + 1,
        ({
            let ft = final(k).processes@[old(k).cur_pid()].fd_table@;
            let rb = old(k).pipes@.len() as usize;
            r.0 < ft.len() && (ft[r.0 as int] == Some(crate::task::FdEntry::PipeRead(rb)))
                && r.1 < ft.len() && (ft[r.1 as int] == Some(
                crate::task::FdEntry::PipeWrite(rb),
            )) && r.0 != r.1 && final(k).pipes@[rb as int].spec_len() == 0 && final(k).pipes@[
                rb as int].write_ends == 1
        }),
{
    k.sys_pipe()
}

/// One round of reading from `fd`, at most `len` bytes: a pipe
/// delivers exactly its oldest bytes, `0` means end of stream, `-2`
/// asks for a retry after yielding.
pub fn read(k: &mut Kernel, fd: usize, len: usize) -> (r: (isize, Vec<u8>))
    requires
        old(k).wf(),
        old(k).has_current(),
        len <= isize::MAX,
    ensures
        final(k).wf(),
        r.0 >= 0 ==> r.1@.len() == r.0 && r.0 <= len,
        old(k).cur_fd(fd as int) is None ==> r.0 == -1 && *final(k) == *old(k),
        crate::kernel::fd_pipe_read(old(k).cur_fd(fd as int)) is Some
            && crate::kernel::fd_pipe_read(old(k).cur_fd(fd as int))->0 < old(k).pipes@.len()
            ==> crate::kernel::pipe_read_post(
            *old(k),
            *final(k),
            crate::kernel::fd_pipe_read(old(k).cur_fd(fd as int))->0,
            len as int,
            r.0 as int,
            r.1@,
        ),
{
    usersyscall::sys_read(k, fd, len)
}

/// One round of writing `buf` to `fd`: the console takes everything,
/// a pipe exactly what fits in its ring.
pub fn write(k: &mut Kernel, fd: usize, buf: &[u8]) -> (r: isize)
    requires
        old(k).wf(),
        old(k).has_current(),
        buf@.len() <= isize::MAX,
    ensures
        final(k).wf(),
        r >= 0 ==> r <= buf@.len(),
        old(k).cur_fd(fd as int) is None ==> r == -1 && *final(k) == *old(k),
        old(k).cur_fd(fd as int) == Some(crate::task::FdEntry::Stdout) ==> r == buf@.len(),
        crate::kernel::fd_pipe_write(old(k).cur_fd(fd as int)) is Some
            && crate::kernel::fd_pipe_write(old(k).cur_fd(fd as int))->0 < old(k).pipes@.len()
            ==> crate::kernel::pipe_write_post(
            *old(k),
            *final(k),
            crate::kernel::fd_pipe_write(old(k).cur_fd(fd as int))->0,
            buf@,
            r as int,
        ),
{
    usersyscall::sys_write(k, fd, buf)
}

/// End the calling process with `exit_code`.
pub fn exit(k: &mut Kernel, exit_code: i32) -> (r: isize)
    requires
        old(k).wf(),
        old(k).has_current(),
        old(k).live(0),
        old(k).cur_pid() != 0,
    ensures
        final(k).wf(),
        (final(k).processes@[old(k).cur_pid()].is_zombie),
        (final(k).processes@[old(k).cur_pid()].exit_code == exit_code),
{
    usersyscall::sys_exit(k, exit_code)
}

/// Sleep for `sleep_ms` milliseconds.
pub fn sleep(k: &mut Kernel, sleep_ms: usize)
    requires
        old(k).wf(),
        old(k).has_current(),
        old(k).time_ms + sleep_ms <= usize::MAX,
    ensures
        final(k).wf(),
{
    k.sys_sleep(sleep_ms);
}

/// Yield the processor: the caller goes to the tail of the ready
/// queue, so every thread queued ahead of it runs first.
pub fn yield_(k: &mut Kernel) -> (r: isize)
    requires
        old(k).wf(),
        old(k).has_current(),
    ensures
        final(k).wf(),
        r == 0,
        old(k).manager.ready_queue@.len() > 0 ==> final(k).manager.ready_queue@ == old(k).manager.ready_queue@.drop_first().push(old(k).processor.current->0),
{
    usersyscall::sys_yield(k)
}

/// Send signal `signum` to process `pid`.
pub fn kill(k: &mut Kernel, pid: usize, signum: u32) -> (r: isize)
    requires
        old(k).wf(),
    ensures
        final(k).wf(),
        r == 0 || r == -1,
        r == 0 <==> (old(k).live(pid as int) && signum <= crate::config::MAX_SIG),
{
    k.sys_kill(pid, signum)
}

/// The clock, in milliseconds.
pub fn get_time(k: &mut Kernel) -> (r: isize)
    requires
        old(k).time_ms <= isize::MAX,
    ensures
        r == old(k).time_ms,
        *final(k) == *old(k),
{
    usersyscall::sys_get_time(k)
}

/// The calling process's id.
pub fn getpid(k: &mut Kernel) -> (r: isize)
    requires
        old(k).has_current(),
        old(k).cur_pid() <= isize::MAX,
    ensures
        r == old(k).cur_pid(),
        *final(k) == *old(k),
{
    usersyscall::sys_getpid(k)
}

/// Fork: the parent sees the child's PID, always positive; the child's
/// saved return register holds zero.
pub fn fork(k: &mut Kernel) -> (r: isize)
    requires
        old(k).wf(),
        old(k).has_current(),
        old(k).live(0),
        old(k).processes@.len() < isize::MAX,
        old(k).kstack_allocator.wf(),
        old(k).kstack_allocator.current < usize::MAX,
        (old(k).processes@[old(k).cur_pid()].tasks@[0] is Some),
        0 < old(k).processes@[old(k).cur_pid()].tasks@.len(),
        forall|rbx: int|
            0 <= rbx < old(k).pipes@.len() ==> (#[trigger] old(k).pipes@[rbx].write_ends) + old(k).processes@[old(k).cur_pid()].fd_table@.len() <= usize::MAX,
    ensures
        final(k).wf(),
        r > 0,
        final(k).live(r as int),
        (final(k).processes@[r as int].tasks@[0]->0.trap_cx.x[10] == 0),
        final(k).processes@[r as int].fd_table@ == old(k).processes@[old(k).cur_pid()].fd_table@,
        final(k).manager.ready_queue@ == old(k).manager.ready_queue@.push(
            TaskRef { pid: r as usize, tid: 0 },
        ),
{
    usersyscall::sys_fork(k)
}

/// Restart the calling process at `entry_point`, with a fresh stack
/// and the argument registers filled.
pub fn exec(k: &mut Kernel, entry_point: usize, argc: usize, argv_base: usize) -> (r: isize)
    requires
        old(k).wf(),
        old(k).has_current(),
        old(k).processes@[old(k).cur_pid()].tasks@.len() == 1,
        (old(k).processes@[old(k).cur_pid()].tasks@[0] is Some),
        argc <= isize::MAX,
    ensures
        final(k).wf(),
        r == argc,
        ({
            let t = final(k).processes@[old(k).cur_pid()].tasks@[0]->0.trap_cx;
            t.sepc == entry_point && t.x[10] == argc && t.x[11] == argv_base
        }),
{
    k.exec(entry_point, crate::config::USER_STACK_TOP, argc, argv_base);
    argc as isize
}

/// Wait for child `pid`: one attempt.  `-1` means no such child,
/// `-2` that the child still runs (the caller yields and retries),
/// else the reaped child's PID with its exit code by value.
pub fn waitpid(k: &mut Kernel, pid: usize) -> (r: (isize, i32))
    requires
        old(k).wf(),
        old(k).has_current(),
        old(k).processes@.len() <= isize::MAX,
        pid <= isize::MAX,
    ensures
        final(k).wf(),
        r.0 == -1 || r.0 == -2 || r.0 >= 0,
        r.0 == -1 <==> !exists|i: int| old(k).wait_match(old(k).cur_pid(), i, pid as int),
        r.0 == -2 <==> ((exists|i: int| old(k).wait_match(old(k).cur_pid(), i, pid as int))
            && !exists|i: int| old(k).wait_zombie(old(k).cur_pid(), i, pid as int)),
        r.0 >= 0 <==> exists|i: int| old(k).wait_zombie(old(k).cur_pid(), i, pid as int),
        r.0 < 0 ==> *final(k) == *old(k),
        r.0 >= 0 ==> exists|j: int|
            {
                &&& #[trigger] old(k).wait_zombie(old(k).cur_pid(), j, pid as int)
                &&& old(k).processes@[old(k).cur_pid()].children@[j] == r.0
                &&& r.1 == old(k).processes@[old(k).processes@[old(k).cur_pid()].children@[
                    j] as int].exit_code
                &&& final(k).processes@[old(k).cur_pid()].children@ == old(k).processes@[old(k).cur_pid()].children@.remove(j)
            },
        r.0 >= 0 ==> !final(k).pid_allocator.is_allocated(r.0 as usize),
{
    usersyscall::sys_waitpid(k, pid as isize)
}

/// Wait for any child: one attempt; `-1`, `-2` and the reaped PID as
/// in `waitpid`.
pub fn wait(k: &mut Kernel) -> (r: (isize, i32))
    requires
        old(k).wf(),
        old(k).has_current(),
        old(k).processes@.len() <= isize::MAX,
    ensures
        final(k).wf(),
        r.0 == -1 || r.0 == -2 || r.0 >= 0,
        r.0 == -1 <==> !exists|i: int| #[trigger] old(k).wait_match(old(k).cur_pid(), i, -1),
        r.0 >= 0 <==> exists|i: int| #[trigger] old(k).wait_zombie(old(k).cur_pid(), i, -1),
        r.0 < 0 ==> *final(k) == *old(k),
        r.0 >= 0 ==> !final(k).pid_allocator.is_allocated(r.0 as usize),
{
    usersyscall::sys_waitpid(k, -1)
}

/// Wait for child `pid` without blocking: exactly one attempt, with
/// `waitpid`'s result classification.
pub fn waitpid_nb(k: &mut Kernel, pid: usize) -> (r: (isize, i32))
    requires
        old(k).wf(),
        old(k).has_current(),
        old(k).processes@.len() <= isize::MAX,
        pid <= isize::MAX,
    ensures
        final(k).wf(),
        r.0 == -1 || r.0 == -2 || r.0 >= 0,
        r.0 == -1 <==> !exists|i: int| old(k).wait_match(old(k).cur_pid(), i, pid as int),
        r.0 >= 0 <==> exists|i: int| old(k).wait_zombie(old(k).cur_pid(), i, pid as int),
        r.0 < 0 ==> *final(k) == *old(k),
        r.0 >= 0 ==> !final(k).pid_allocator.is_allocated(r.0 as usize),
{
    usersyscall::sys_waitpid(k, pid as isize)
}

/// Create a thread at `entry` with argument `arg`; returns its tid.
pub fn thread_create(k: &mut Kernel, entry: usize, arg: usize) -> (r: isize)
    requires
        old(k).wf(),
        old(k).has_current(),
        old(k).processes@[old(k).cur_pid()].tasks@.len() < isize::MAX,
        old(k).kstack_allocator.wf(),
        old(k).kstack_allocator.current < usize::MAX,
    ensures
        final(k).wf(),
        r >= 0,
{
    k.sys_thread_create(entry, arg)
}

/// The calling thread's id.
pub fn gettid(k: &mut Kernel) -> (r: isize)
    requires
        old(k).has_current(),
        old(k).processor.current->0.tid <= isize::MAX,
    ensures
        r == old(k).processor.current->0.tid,
        *final(k) == *old(k),
{
    let r = k.sys_gettid();
    r
}

/// Wait for thread `tid` of the calling process: one attempt.
pub fn waittid(k: &mut Kernel, tid: usize) -> (r: isize)
    requires
        old(k).wf(),
        old(k).has_current(),
    ensures
        final(k).wf(),
        ({
            let ts = old(k).processes@[old(k).cur_pid()].tasks@;
            ((tid >= ts.len() || ts[tid as int] is None) ==> r == -1)
        }),
{
    k.sys_waittid(tid)
}

/// Create a spinning mutex; returns its id.
pub fn mutex_create(k: &mut Kernel) -> (r: isize)
    requires
        old(k).wf(),
        old(k).has_current(),
        old(k).processes@[old(k).cur_pid()].mutex_list@.len() < isize::MAX,
    ensures
        final(k).wf(),
        r >= 0,
{
    k.sys_mutex_create(false)
}

/// Create a blocking mutex; returns its id.
pub fn mutex_blocking_create(k: &mut Kernel) -> (r: isize)
    requires
        old(k).wf(),
        old(k).has_current(),
        old(k).processes@[old(k).cur_pid()].mutex_list@.len() < isize::MAX,
    ensures
        final(k).wf(),
        r >= 0,
{
    k.sys_mutex_create(true)
}

/// Lock mutex `mutex_id`: take it when free, else park on its FIFO
/// wait queue (blocking) or yield to retry (spinning).
pub fn mutex_lock(k: &mut Kernel, mutex_id: usize) -> (r: isize)
    requires
        old(k).wf(),
        old(k).has_current(),
        mutex_id < old(k).processes@[old(k).cur_pid()].mutex_list@.len(),
        (old(k).processes@[old(k).cur_pid()].mutex_list@[mutex_id as int] is Some),
    ensures
        final(k).wf(),
        r == 0,
        ({
            let m0 = old(k).processes@[old(k).cur_pid()].mutex_list@[mutex_id as int]->0;
            let m1 = final(k).processes@[old(k).cur_pid()].mutex_list@[mutex_id as int]->0;
            if !m0.locked {
                m1.locked && m1.wait_queue == m0.wait_queue
            } else if m0.blocking {
                m1.locked && m1.wait_queue@ == m0.wait_queue@.push(old(k).processor.current->0)
            } else {
                m1.locked == m0.locked
            }
        }),
{
    k.sys_mutex_lock(mutex_id)
}

/// Unlock mutex `mutex_id`: the head waiter takes it and wakes at
/// the ready-queue tail, else the mutex becomes free.
pub fn mutex_unlock(k: &mut Kernel, mutex_id: usize) -> (r: isize)
    requires
        old(k).wf(),
        old(k).has_current(),
        mutex_id < old(k).processes@[old(k).cur_pid()].mutex_list@.len(),
        (old(k).processes@[old(k).cur_pid()].mutex_list@[mutex_id as int] is Some),
        (old(k).processes@[old(k).cur_pid()].mutex_list@[mutex_id as int]->0.locked),
    ensures
        final(k).wf(),
        r == 0,
        ({
            let m0 = old(k).processes@[old(k).cur_pid()].mutex_list@[mutex_id as int]->0;
            let m1 = final(k).processes@[old(k).cur_pid()].mutex_list@[mutex_id as int]->0;
            if m0.wait_queue@.len() > 0 {
                m1.locked && m1.wait_queue@ == m0.wait_queue@.drop_first() && final(k).manager.ready_queue@ == old(k).manager.ready_queue@.push(m0.wait_queue@[0])
            } else {
                !m1.locked && final(k).manager.ready_queue@ == old(k).manager.ready_queue@
            }
        }),
{
    k.sys_mutex_unlock(mutex_id)
}

/// Create a semaphore with `res_count` permits; returns its id.
pub fn semaphore_create(k: &mut Kernel, res_count: i32) -> (r: isize)
    requires
        old(k).wf(),
        old(k).has_current(),
        old(k).processes@[old(k).cur_pid()].semaphore_list@.len() < isize::MAX,
    ensures
        final(k).wf(),
        r >= 0,
{
    k.sys_semaphore_create(res_count)
}

/// Release one permit of semaphore `sem_id`.
pub fn semaphore_up(k: &mut Kernel, sem_id: usize) -> (r: isize)
    requires
        old(k).wf(),
        old(k).has_current(),
        sem_id < old(k).processes@[old(k).cur_pid()].semaphore_list@.len(),
        (old(k).processes@[old(k).cur_pid()].semaphore_list@[sem_id as int] is Some),
        (old(k).processes@[old(k).cur_pid()].semaphore_list@[sem_id as int]->0.count < i32::MAX),
    ensures
        final(k).wf(),
        r == 0,
{
    k.sys_semaphore_up(sem_id)
}

/// Take one permit of semaphore `sem_id`, blocking when none is left.
pub fn semaphore_down(k: &mut Kernel, sem_id: usize) -> (r: isize)
    requires
        old(k).wf(),
        old(k).has_current(),
        sem_id < old(k).processes@[old(k).cur_pid()].semaphore_list@.len(),
        (old(k).processes@[old(k).cur_pid()].semaphore_list@[sem_id as int] is Some),
        (old(k).processes@[old(k).cur_pid()].semaphore_list@[sem_id as int]->0.count > i32::MIN),
    ensures
        final(k).wf(),
        r == 0,
{
    k.sys_semaphore_down(sem_id)
}

/// Create a condition variable; returns its id.
pub fn condvar_create(k: &mut Kernel) -> (r: isize)
    requires
        old(k).wf(),
        old(k).has_current(),
        old(k).processes@[old(k).cur_pid()].condvar_list@.len() < isize::MAX,
    ensures
        final(k).wf(),
        r >= 0,
{
    k.sys_condvar_create()
}

/// Wake the head waiter of condition variable `condvar_id`.
pub fn condvar_signal(k: &mut Kernel, condvar_id: usize) -> (r: isize)
    requires
        old(k).wf(),
        old(k).has_current(),
        condvar_id < old(k).processes@[old(k).cur_pid()].condvar_list@.len(),
        (old(k).processes@[old(k).cur_pid()].condvar_list@[condvar_id as int] is Some),
    ensures
        final(k).wf(),
        r == 0,
{
    k.sys_condvar_signal(condvar_id)
}

/// Wait on condition variable `condvar_id`, releasing mutex
/// `mutex_id` while parked.
pub fn condvar_wait(k: &mut Kernel, condvar_id: usize, mutex_id: usize) -> (r: isize)
    requires
        old(k).wf(),
        old(k).has_current(),
        condvar_id < old(k).processes@[old(k).cur_pid()].condvar_list@.len(),
        (old(k).processes@[old(k).cur_pid()].condvar_list@[condvar_id as int] is Some),
        mutex_id < old(k).processes@[old(k).cur_pid()].mutex_list@.len(),
        (old(k).processes@[old(k).cur_pid()].mutex_list@[mutex_id as int] is Some),
        (old(k).processes@[old(k).cur_pid()].mutex_list@[mutex_id as int]->0.locked),
    ensures
        final(k).wf(),
        r == 0,
{
    k.sys_condvar_wait(condvar_id, mutex_id)
}

} // verus!
