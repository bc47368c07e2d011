//! The user-side system-call stubs.
//!
//! In the running system these place the call number and arguments in
//! registers and trap into the kernel; here the kernel is an explicit
//! value, so each stub is a direct, verified transition of it.  Opening
//! files by path belongs to the filesystem library, which callers use
//! directly; the stub for it reports failure.

use vstd::prelude::*;

use crate::efs::EasyFileSystem;
use crate::kernel::{arg_area, argv_layout, Kernel};
use crate::task::TaskRef;
use crate::vfs::{entry_has_name, entry_inode, image_entry, spec_inode_at, str_bytes, Inode};

verus! {

/// Open by path: not routed in this model; the filesystem's own
/// `create` and `find` serve callers.  Returns `-1`.
pub fn sys_open(k: &mut Kernel, path: &str, flags: u32) -> (r: isize)
    ensures
        r == -1,
        *final(k) == *old(k),
{
    -1
}

/// Close descriptor `fd` of the running process.
pub fn sys_close(k: &mut Kernel, fd: usize) -> (r: isize)
    requires
        old(k).wf(),
        old(k).has_current(),
    ensures
        final(k).wf(),
        r == -1 || r == 0,
        r == -1 <==> old(k).cur_fd(fd as int) is None,
        r == -1 ==> *final(k) == *old(k),
        r == 0 ==> final(k).processes@[old(k).cur_pid()].fd_table@[fd as int] is None,
{
    k.sys_close(fd)
}

/// One round of reading from descriptor `fd`, at most `len` bytes: a
/// pipe delivers exactly its oldest bytes, `0` means end of stream,
/// `-2` asks for a retry after yielding.
pub fn sys_read(k: &mut Kernel, fd: usize, len: usize) -> (r: (isize, Vec<u8>))
    requires
        old(k).wf(),
        old(k).has_current(),
        len <= isize::MAX,
    ensures
        final(k).wf(),
        r.0 >= 0 ==> r.1@.len() == r.0 && r.0 <= len,
        old(k).cur_fd(fd as int) is None ==> r.0 == -1 && *final(k) == *old(k),
        crate::kernel::fd_pipe_read(old(k).cur_fd(fd as int)) is Some
            && crate::kernel::fd_pipe_read(old(k).cur_fd(fd as int))->0 < old(k).pipes@.len()
            ==> crate::kernel::pipe_read_post(
            *old(k),
            *final(k),
            crate::kernel::fd_pipe_read(old(k).cur_fd(fd as int))->0,
            len as int,
            r.0 as int,
            r.1@,
        ),
{
    k.sys_read(fd, len)
}

/// One round of writing `buf` to descriptor `fd`: the console takes
/// everything, a pipe exactly what fits in its ring.
pub fn sys_write(k: &mut Kernel, fd: usize, buf: &[u8]) -> (r: isize)
    requires
        old(k).wf(),
        old(k).has_current(),
        buf@.len() <= isize::MAX,
    ensures
        final(k).wf(),
        r >= 0 ==> r <= buf@.len(),
        old(k).cur_fd(fd as int) is None ==> r == -1 && *final(k) == *old(k),
        old(k).cur_fd(fd as int) == Some(crate::task::FdEntry::Stdout) ==> r == buf@.len(),
        crate::kernel::fd_pipe_write(old(k).cur_fd(fd as int)) is Some
            && crate::kernel::fd_pipe_write(old(k).cur_fd(fd as int))->0 < old(k).pipes@.len()
            ==> crate::kernel::pipe_write_post(
            *old(k),
            *final(k),
            crate::kernel::fd_pipe_write(old(k).cur_fd(fd as int))->0,
            buf@,
            r as int,
        ),
{
    k.sys_write(fd, buf)
}

/// End the running process with `exit_code`.
pub fn sys_exit(k: &mut Kernel, exit_code: i32) -> (r: isize)
    requires
        old(k).wf(),
        old(k).has_current(),
        old(k).live(0),
        old(k).cur_pid() != 0,
    ensures
        final(k).wf(),
        (final(k).processes@[old(k).cur_pid()].is_zombie),
        (final(k).processes@[old(k).cur_pid()].exit_code == exit_code),
        r == 0,
{
    k.sys_exit(exit_code);
    0
}

/// Give up the processor until every other ready thread has run.
pub fn sys_yield(k: &mut Kernel) -> (r: isize)
    requires
        old(k).wf(),
        old(k).has_current(),
    ensures
        final(k).wf(),
        r == 0,
        old(k).manager.ready_queue@.len() > 0 ==> final(k).manager.ready_queue@ == old(k).manager.ready_queue@.drop_first().push(old(k).processor.current->0),
{
    k.sys_yield()
}

/// The clock, in milliseconds.
pub fn sys_get_time(k: &mut Kernel) -> (r: isize)
    requires
        old(k).time_ms <= isize::MAX,
    ensures
        r == old(k).time_ms,
        *final(k) == *old(k),
{
    k.sys_get_time()
}

/// The running process's id.
pub fn sys_getpid(k: &mut Kernel) -> (r: isize)
    requires
        old(k).has_current(),
        old(k).cur_pid() <= isize::MAX,
    ensures
        r == old(k).cur_pid(),
        *final(k) == *old(k),
{
    k.sys_getpid()
}

/// Fork the running process; the parent receives the child's PID.
pub fn sys_fork(k: &mut Kernel) -> (r: isize)
    requires
        old(k).wf(),
        old(k).has_current(),
        old(k).live(0),
        old(k).processes@.len() < isize::MAX,
        old(k).kstack_allocator.wf(),
        old(k).kstack_allocator.current < usize::MAX,
        (old(k).processes@[old(k).cur_pid()].tasks@[0] is Some),
        0 < old(k).processes@[old(k).cur_pid()].tasks@.len(),
        forall|rbx: int|
            0 <= rbx < old(k).pipes@.len() ==> (#[trigger] old(k).pipes@[rbx].write_ends) + old(k).processes@[old(k).cur_pid()].fd_table@.len() <= usize::MAX,
    ensures
        final(k).wf(),
        r > 0,
        final(k).live(r as int),
        (final(k).processes@[r as int].tasks@[0]->0.trap_cx.x[10] == 0),
        final(k).processes@[r as int].fd_table@ == old(k).processes@[old(k).cur_pid()].fd_table@,
        final(k).manager.ready_queue@ == old(k).manager.ready_queue@.push(
            TaskRef { pid: r as usize, tid: 0 },
        ),
{
    k.sys_fork()
}

/// Replace the running process's single thread with the program image
/// named `path` in directory `root`: `-1` when no directory entry
/// carries that name, else the argument count, with the thread set to
/// resume at the image's declared entry address, its stack pointer
/// under the marshalled arguments and its argument registers filled.
/// Install program image `node` in the running process: the thread
/// resumes at the image's declared entry with `args` marshalled on a
/// fresh user stack.
fn exec_image(
    k: &mut Kernel,
    fs: &mut EasyFileSystem,
    node: &Inode,
    args: &Vec<Vec<u8>>,
) -> (r: isize)
    requires
        old(k).wf(),
        old(k).has_current(),
        old(k).processes@[old(k).cur_pid()].tasks@.len() == 1,
        (old(k).processes@[old(k).cur_pid()].tasks@[0] is Some),
        old(fs).wf(),
        node.ok(*old(fs)),
        args@.len() <= isize::MAX,
        (args@.len() + 1) * 8 + arg_area(args@, args@.len() as int) <= crate::config::USER_STACK_TOP,
    ensures
        final(fs).wf(),
        final(fs).same_layout(*old(fs)),
        final(fs).disk() == old(fs).disk(),
        final(k).wf(),
        r == args@.len(),
        ({
            let t = final(k).processes@[old(k).cur_pid()].tasks@[0]->0.trap_cx;
            let base = crate::config::USER_STACK_TOP - (args@.len() + 1) * 8;
            let lo = base - arg_area(args@, args@.len() as int);
            t.sepc == image_entry(node.contents(*old(fs))) && t.x[10] == args@.len() && t.x[11]
                == base && t.x[2] == lo - lo % 8
        }),
{
    proof {
        crate::kernel::lemma_arg_area_mono(args@, 0, args@.len() as int);
    }
    let head = node.read_at(fs, 0, 4);
    let mut word: u32 = 0;
    if head.len() == 4 {
        word = head[3] as u32;
        assert(word < 0x100);
        word = word * 256 + head[2] as u32;
        assert(word < 0x10000);
        word = word * 256 + head[1] as u32;
        assert(word < 0x1000000);
        word = word * 256 + head[0] as u32;
    }
    let entry = word as usize;
    proof {
        assert(entry == image_entry(node.contents(*old(fs))));
    }
    let argc = args.len();
    let (user_sp, _ptrs) = argv_layout(crate::config::USER_STACK_TOP, args);
    let argv_base = crate::config::USER_STACK_TOP - (argc + 1) * 8;
    k.exec(entry, user_sp, argc, argv_base);
    argc as isize
}

#[verifier::rlimit(100)]
pub fn sys_exec(
    k: &mut Kernel,
    fs: &mut EasyFileSystem,
    root: &Inode,
    path: &str,
    args: &Vec<Vec<u8>>,
) -> (r: isize)
    requires
        old(k).wf(),
        old(k).has_current(),
        old(k).processes@[old(k).cur_pid()].tasks@.len() == 1,
        (old(k).processes@[old(k).cur_pid()].tasks@[0] is Some),
        old(fs).wf(),
        root.ok(*old(fs)),
        root.spec_size(*old(fs)) % 32 == 0,
        path@.len() <= 27,
        vstd::string::is_ascii(path),
        args@.len() <= isize::MAX,
        (args@.len() + 1) * 8 + arg_area(args@, args@.len() as int) <= crate::config::USER_STACK_TOP,
        // any record the name resolves to is a well-formed file
        forall|kx: int|
            #![trigger entry_has_name(root.contents(*old(fs)), kx, str_bytes(path@))]
            0 <= kx < root.contents(*old(fs)).len() as int / 32 && entry_has_name(
                root.contents(*old(fs)),
                kx,
                str_bytes(path@),
            ) ==> 0 <= entry_inode(root.contents(*old(fs)), kx) < old(fs).inode_capacity()
                && spec_inode_at(*old(fs), entry_inode(root.contents(*old(fs)), kx)).ok(
                *old(fs),
            ),
    ensures
        final(fs).wf(),
        final(fs).same_layout(*old(fs)),
        final(fs).disk() == old(fs).disk(),
        final(k).wf(),
        r == -1 || r == args@.len(),
        (r == -1 <==> !exists|kx: int|
            #![trigger entry_has_name(root.contents(*old(fs)), kx, str_bytes(path@))]
            0 <= kx < root.contents(*old(fs)).len() as int / 32 && entry_has_name(
                root.contents(*old(fs)),
                kx,
                str_bytes(path@),
            )),
        r == -1 ==> *final(k) == *old(k),
        r >= 0 ==> exists|kx: int|
            #![trigger entry_has_name(root.contents(*old(fs)), kx, str_bytes(path@))]
            0 <= kx < root.contents(*old(fs)).len() as int / 32 && entry_has_name(
                root.contents(*old(fs)),
                kx,
                str_bytes(path@),
            ) && ({
                let node = spec_inode_at(*old(fs), entry_inode(root.contents(*old(fs)), kx));
                let t = final(k).processes@[old(k).cur_pid()].tasks@[0]->0.trap_cx;
                let base = crate::config::USER_STACK_TOP - (args@.len() + 1) * 8;
                let lo = base - arg_area(args@, args@.len() as int);
                t.sepc == image_entry(node.contents(*old(fs))) && t.x[10] == args@.len() && t.x[11]
                    == base && t.x[2] == lo - lo % 8
            }),
{
    let ghost c = root.contents(*old(fs));
    let ghost nm = str_bytes(path@);
    let found = root.find(fs, path);
    match found {
        None => -1,
        Some(id) => {
            let node = Inode::from_id(fs, id);
            proof {
                assert(node.ok(*fs));
                assert(node.contents(*fs) == node.contents(*old(fs)));
            }
            exec_image(k, fs, &node, args)
        },
    }
}

/// One attempt to reap a child: `-1` for no matching child, `-2` while
/// every matching child runs, else the reaped child's PID paired with
/// its exit code; nothing changes on `-1` and `-2`.
pub fn sys_waitpid(k: &mut Kernel, pid: isize) -> (r: (isize, i32))
    requires
        old(k).wf(),
        old(k).has_current(),
        old(k).processes@.len() <= isize::MAX,
    ensures
        final(k).wf(),
        r.0 == -1 || r.0 == -2 || r.0 >= 0,
        r.0 == -1 <==> !exists|i: int| old(k).wait_match(old(k).cur_pid(), i, pid as int),
        r.0 == -2 <==> ((exists|i: int| old(k).wait_match(old(k).cur_pid(), i, pid as int))
            && !exists|i: int| old(k).wait_zombie(old(k).cur_pid(), i, pid as int)),
        r.0 >= 0 <==> exists|i: int| old(k).wait_zombie(old(k).cur_pid(), i, pid as int),
        r.0 < 0 ==> *final(k) == *old(k),
        r.0 >= 0 ==> exists|j: int|
            {
                &&& #[trigger] old(k).wait_zombie(old(k).cur_pid(), j, pid as int)
                &&& old(k).processes@[old(k).cur_pid()].children@[j] == r.0
                &&& r.1 == old(k).processes@[old(k).processes@[old(k).cur_pid()].children@[
                    j] as int].exit_code
                &&& final(k).processes@[old(k).cur_pid()].children@ == old(k).processes@[old(k).cur_pid()].children@.remove(j)
            },
        r.0 >= 0 ==> !final(k).pid_allocator.is_allocated(r.0 as usize) && !final(k).live(
            r.0 as int,
        ),
{
    k.sys_waitpid(pid)
}

} // verus!
