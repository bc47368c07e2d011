use oscore::block_dev::MemoryDisk;
use oscore::efs::EasyFileSystem;
use oscore::kernel::{argv_layout, Kernel, TrapCause};
use oscore::task::TaskRef;
use oscore::userlib;
use oscore::usersyscall;
use oscore::vfs::Inode;

fn boot() -> Kernel {
    let mut k = Kernel::new();
    k.add_initproc(0x1000, 0x8000_0000);
    // give the initial process the processor
    let t = k.fetch_task().unwrap();
    assert_eq!(t, TaskRef { pid: 0, tid: 0 });
    k.processor.current = Some(t);
    k
}

#[test]
fn scheduler_is_fifo() {
    let mut k = boot();
    let a = TaskRef { pid: 0, tid: 7 };
    let b = TaskRef { pid: 0, tid: 8 };
    k.add_task(a);
    k.add_task(b);
    assert_eq!(k.fetch_task(), Some(a));
    assert_eq!(k.fetch_task(), Some(b));
    assert_eq!(k.fetch_task(), None);
}

#[test]
fn fork_return_values() {
    let mut k = boot();
    let child = k.sys_fork();
    assert!(child > 0);
    // the child observes zero in its saved return register
    let tcb = k.processes[child as usize].tasks[0].as_ref().unwrap();
    assert_eq!(tcb.trap_cx.x[10], 0);
    // the parent keeps running; the child joined the queue tail
    assert_eq!(k.current_task(), Some(TaskRef { pid: 0, tid: 0 }));
    assert_eq!(
        k.manager.ready_queue.last(),
        Some(&TaskRef { pid: child as usize, tid: 0 })
    );
}

#[test]
fn waitpid_codes_and_pid_reuse() {
    let mut k = boot();
    // no child at all
    assert_eq!(k.sys_waitpid(-1).0, -1);
    let child = k.sys_fork() as usize;
    // child still alive
    assert_eq!(k.sys_waitpid(child as isize).0, -2);
    // let the child run and exit with code 7
    let t = k.fetch_task().unwrap();
    k.processor.current = Some(t);
    k.sys_exit(7);
    k.processor.current = Some(TaskRef { pid: 0, tid: 0 });
    let (pid, code) = k.sys_waitpid(child as isize);
    assert_eq!(pid as usize, child);
    assert_eq!(code, 7);
    // the reaped pid is immediately available again
    let again = k.sys_fork() as usize;
    assert_eq!(again, child);
}

#[test]
fn blocking_mutex_is_fair_fifo() {
    let mut k = boot();
    let m = k.sys_mutex_create(true);
    assert_eq!(m, 0);
    assert_eq!(k.sys_mutex_lock(0), 0);
    // a second thread contends and blocks
    let tid = k.sys_thread_create(0x2000, 0);
    assert!(tid > 0);
    let t1 = TaskRef { pid: 0, tid: tid as usize };
    k.processor.current = Some(t1);
    k.sys_mutex_lock(0);
    // the holder unlocks: the head waiter gets the mutex and wakes
    k.processor.current = Some(TaskRef { pid: 0, tid: 0 });
    k.sys_mutex_unlock(0);
    let ml = k.processes[0].mutex_list[0].as_ref().unwrap();
    assert!(ml.locked);
    assert!(ml.wait_queue.is_empty());
    assert_eq!(k.manager.ready_queue.last(), Some(&t1));
}

#[test]
fn semaphore_counts_and_wakes() {
    let mut k = boot();
    assert_eq!(k.sys_semaphore_create(1), 0);
    assert_eq!(k.sys_semaphore_down(0), 0);
    let s = k.processes[0].semaphore_list[0].as_ref().unwrap();
    assert_eq!(s.count, 0);
    assert_eq!(k.sys_semaphore_up(0), 0);
    let s = k.processes[0].semaphore_list[0].as_ref().unwrap();
    assert_eq!(s.count, 1);
}

#[test]
fn condvar_signal_wakes_in_order() {
    let mut k = boot();
    assert_eq!(k.sys_mutex_create(true), 0);
    assert_eq!(k.sys_condvar_create(), 0);
    let tid = k.sys_thread_create(0x2000, 0) as usize;
    // the consumer takes the lock and waits
    let waiter = TaskRef { pid: 0, tid };
    k.processor.current = Some(waiter);
    k.sys_mutex_lock(0);
    k.sys_condvar_wait(0, 0);
    assert_eq!(
        k.processes[0].condvar_list[0].as_ref().unwrap().wait_queue,
        vec![waiter]
    );
    // the producer signals: the waiter moves to the ready queue
    k.processor.current = Some(TaskRef { pid: 0, tid: 0 });
    k.sys_condvar_signal(0);
    assert!(k.processes[0].condvar_list[0].as_ref().unwrap().wait_queue.is_empty());
    assert_eq!(k.manager.ready_queue.last(), Some(&waiter));
}

#[test]
fn pipe_round_trip_and_eof() {
    let mut k = boot();
    let (rfd, wfd) = k.sys_pipe();
    let mut total = 0usize;
    let n = 100_000usize;
    let mut sent = 0usize;
    let payload = vec![0x5au8; 4096];
    while sent < n || total < n {
        if sent < n {
            let chunk = (n - sent).min(payload.len());
            let w = k.sys_write(wfd, &payload[..chunk]);
            assert!(w >= 0);
            sent += w as usize;
        }
        let (r, data) = k.sys_read(rfd, 4096);
        if r > 0 {
            assert!(data.iter().all(|&b| b == 0x5a));
            total += r as usize;
        }
    }
    assert_eq!(total, n);
    // with the writer closed, a drained pipe reads as end of stream
    assert_eq!(k.sys_close(wfd), 0);
    let (r, _) = k.sys_read(rfd, 16);
    assert_eq!(r, 0);
}

#[test]
fn sleep_timers_fire_on_tick() {
    let mut k = boot();
    k.sys_sleep(50);
    assert_eq!(k.timers.len(), 1);
    k.tick(49);
    assert_eq!(k.timers.len(), 1);
    k.tick(1);
    assert_eq!(k.timers.len(), 0);
    assert_eq!(
        k.manager.ready_queue.last(),
        Some(&TaskRef { pid: 0, tid: 0 })
    );
}

#[test]
fn signals_and_kill() {
    let mut k = boot();
    let child = k.sys_fork() as usize;
    assert_eq!(k.sys_kill(child, 9), 0);
    assert_eq!(k.sys_kill(child, 77), -1);
    assert_eq!(k.sys_kill(999, 9), -1);
    let t = k.fetch_task().unwrap();
    k.processor.current = Some(t);
    let err = k.check_signals_of_current();
    assert_eq!(err.unwrap().0, -9);
}

#[test]
fn user_calls_forward() {
    let mut k = boot();
    assert_eq!(userlib::getpid(&mut k), 0);
    assert_eq!(userlib::get_time(&mut k), 0);
    let pid = userlib::fork(&mut k);
    assert!(pid > 0);
    assert_eq!(userlib::open(&mut k, "nope", 0), -1);
    let (r, _w) = userlib::pipe(&mut k);
    assert_eq!(userlib::close(&mut k, r), 0);
    assert_eq!(userlib::close(&mut k, r), -1);
    assert_eq!(userlib::mutex_blocking_create(&mut k), 0);
    assert_eq!(userlib::mutex_lock(&mut k, 0), 0);
    assert_eq!(userlib::mutex_unlock(&mut k, 0), 0);
}

#[test]
fn argv_layout_arithmetic() {
    let top: usize = 1000;
    let args = vec![b"ab".to_vec(), b"c".to_vec()];
    let (sp, ptrs) = argv_layout(top, &args);
    // the pointer array takes (2 + 1) * 8 bytes below 1000, then
    // "ab\0" and "c\0", and the stack pointer aligns down to 8
    assert_eq!(ptrs, vec![973, 971]);
    assert_eq!(sp, 968);
}

#[test]
fn exec_resolves_path_and_installs_image() {
    let mut k = boot();
    let mut fs = EasyFileSystem::create(MemoryDisk::new(4096), 4096, 1);
    let root = Inode::root(&fs);
    let id = root.create(&mut fs, "app").expect("create");
    let ino = Inode::from_id(&fs, id);
    ino.write_at(&mut fs, 0, &[0x34, 0x12, 0x00, 0x00]);
    let args = vec![b"app".to_vec()];
    assert_eq!(usersyscall::sys_exec(&mut k, &mut fs, &root, "none", &args), -1);
    let r = usersyscall::sys_exec(&mut k, &mut fs, &root, "app", &args);
    assert_eq!(r, 1);
    let t = &k.processes[0].tasks[0].as_ref().unwrap().trap_cx;
    assert_eq!(t.sepc, 0x1234);
    assert_eq!(t.x[10], 1);
    assert_eq!(t.x[11], oscore::config::USER_STACK_TOP - 16);
    // argv base minus "app\0", aligned down to 8
    assert_eq!(t.x[2], (oscore::config::USER_STACK_TOP - 20) / 8 * 8);
}

#[test]
fn trap_dispatch_env_call_and_timer() {
    let mut k = boot();
    {
        let t = k.processes[0].tasks[0].as_mut().unwrap();
        t.trap_cx.x[17] = 172;  // getpid
        t.trap_cx.sepc = 0x5000;
    }
    let (r, fatal) = k.handle_trap(TrapCause::UserEnvCall, 0);
    assert_eq!(r, Some(0));
    assert!(fatal.is_none());
    let t = &k.processes[0].tasks[0].as_ref().unwrap().trap_cx;
    assert_eq!(t.sepc, 0x5004);
    assert_eq!(t.x[10], 0);
    let (r2, _) = k.handle_trap(TrapCause::SupervisorTimer, 10);
    assert!(r2.is_none());
    assert_eq!(k.time_ms, 10);
}
