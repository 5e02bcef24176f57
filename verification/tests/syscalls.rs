use proc_core::kernel::Kernel;
use proc_core::process::sys_exec;
use proc_core::process::sys_exit;
use proc_core::process::sys_fork;
use proc_core::process::sys_get_time;
use proc_core::process::sys_getpid;
use proc_core::process::sys_mmap;
use proc_core::process::sys_munmap;
use proc_core::process::sys_sbrk;
use proc_core::process::sys_set_priority;
use proc_core::process::sys_spawn;
use proc_core::process::sys_task_info;
use proc_core::process::sys_waitpid;
use proc_core::process::sys_yield;
use proc_core::process::TaskInfo;
use proc_core::process::TimeVal;
use proc_core::tcb::TaskControlBlock;
use proc_core::tcb::TaskStatus;

fn task<'a>(k: &'a Kernel, pid: usize) -> &'a TaskControlBlock {
    k.tasks.iter().find(|t| t.pid == pid).expect("no task with that pid")
}

fn booted() -> (Kernel, usize) {
    let mut k = Kernel::new();
    let root = k.create_root();
    let fetched = k.fetch_task(0).expect("root must be dispatchable");
    assert_eq!(fetched, root);
    (k, root)
}

#[test]
fn boot_dispatches_root_task() {
    let (k, root) = booted();
    assert_eq!(root, 0);
    assert_eq!(sys_getpid(&k), 0);
    assert_eq!(task(&k, root).task_status, TaskStatus::Running);
    assert_eq!(task(&k, root).first_execute_time, Some(0));
}

#[test]
fn yield_requeues_current_task() {
    let (mut k, root) = booted();
    assert_eq!(sys_yield(&mut k), 0);
    assert!(k.current.is_none());
    assert_eq!(task(&k, root).task_status, TaskStatus::Ready);
    assert_eq!(k.manager.ready_queue, vec![root]);
    assert_eq!(k.fetch_task(5), Some(root));
    assert_eq!(task(&k, root).task_status, TaskStatus::Running);
    // the first dispatch time is kept across later dispatches
    assert_eq!(task(&k, root).first_execute_time, Some(0));
}

#[test]
fn set_priority_rejects_low_values() {
    let (mut k, root) = booted();
    let before = task(&k, root).priority;
    assert_eq!(sys_set_priority(&mut k, 1), -1);
    assert_eq!(sys_set_priority(&mut k, 0), -1);
    assert_eq!(sys_set_priority(&mut k, -7), -1);
    assert_eq!(task(&k, root).priority, before);
}

#[test]
fn set_priority_accepts_two_and_up() {
    let (mut k, root) = booted();
    assert_eq!(sys_set_priority(&mut k, 2), 2);
    assert_eq!(task(&k, root).priority, 2);
    assert_eq!(sys_set_priority(&mut k, 37), 37);
    assert_eq!(task(&k, root).priority, 37);
}

#[test]
fn fork_returns_child_pid_and_clears_child_return_register() {
    let (mut k, root) = booted();
    let child = sys_fork(&mut k);
    assert_eq!(child, 1);
    let child = child as usize;
    assert_eq!(task(&k, child).trap_cx.x10, 0);
    assert_eq!(task(&k, child).task_status, TaskStatus::Ready);
    assert_eq!(task(&k, child).parent, Some(root));
    assert_eq!(task(&k, child).stride, 0);
    assert_eq!(task(&k, child).priority, task(&k, root).priority);
    assert_eq!(task(&k, root).children, vec![child]);
    assert_eq!(k.manager.ready_queue, vec![child]);
}

#[test]
fn fork_copies_the_address_space() {
    let (mut k, _root) = booted();
    assert_eq!(sys_mmap(&mut k, 0x10000, 4096, 0b011), 0);
    let child = sys_fork(&mut k) as usize;
    assert_eq!(task(&k, child).memory_set.areas.len(), 1);
    assert_eq!(task(&k, child).memory_set.areas[0].start_vpn, 0x10);
    assert_eq!(task(&k, child).memory_set.areas[0].end_vpn, 0x11);
}

#[test]
fn waitpid_with_stranger_pid_returns_minus_one() {
    let (mut k, _root) = booted();
    let mut code: i32 = 0;
    // no children at all
    assert_eq!(sys_waitpid(&mut k, 42, &mut code), -1);
    assert_eq!(sys_waitpid(&mut k, -1, &mut code), -1);
    // a child exists, but the waited pid was never a child of the caller
    let _child = sys_fork(&mut k);
    assert_eq!(sys_waitpid(&mut k, 42, &mut code), -1);
    assert_eq!(code, 0);
}

#[test]
fn waitpid_before_child_exits_is_not_ready() {
    let (mut k, _root) = booted();
    let child = sys_fork(&mut k);
    let mut code: i32 = 0;
    assert_eq!(sys_waitpid(&mut k, -1, &mut code), -2);
    assert_eq!(sys_waitpid(&mut k, child, &mut code), -2);
}

#[test]
fn waitpid_reaps_exited_child_and_reports_its_code() {
    let (mut k, root) = booted();
    let child = sys_fork(&mut k);
    // the parent yields; the child runs and exits with code 7
    sys_yield(&mut k);
    assert_eq!(k.fetch_task(1), Some(child as usize));
    sys_exit(&mut k, 7);
    // the parent runs again and reaps
    assert_eq!(k.fetch_task(2), Some(root));
    let mut code: i32 = 0;
    assert_eq!(sys_waitpid(&mut k, -1, &mut code), child);
    assert_eq!(code, 7);
    // the zombie is gone: the same wait now reports no such child
    assert_eq!(sys_waitpid(&mut k, child, &mut code), -1);
    assert!(k.tasks.iter().all(|t| t.pid != child as usize));
    assert!(task(&k, root).children.is_empty());
}

#[test]
fn spawn_on_missing_image_changes_nothing() {
    let (mut k, _root) = booted();
    let tasks_before = k.tasks.len();
    let queue_before = k.manager.ready_queue.len();
    assert_eq!(sys_spawn(&mut k, &"prog".to_string()), -1);
    assert_eq!(k.tasks.len(), tasks_before);
    assert_eq!(k.manager.ready_queue.len(), queue_before);
}

#[test]
fn spawn_builds_a_fresh_task_from_the_image() {
    let (mut k, root) = booted();
    k.register_program("prog".to_string());
    assert_eq!(sys_mmap(&mut k, 0x10000, 4096, 0b111), 0);
    let child = sys_spawn(&mut k, &"prog".to_string());
    assert_eq!(child, 1);
    let child = child as usize;
    // nothing of the caller's address space is inherited
    assert!(task(&k, child).memory_set.areas.is_empty());
    assert_eq!(task(&k, child).parent, Some(root));
    assert_eq!(task(&k, child).priority, proc_core::DEFAULT_PRIORITY);
    assert_eq!(task(&k, root).children, vec![child]);
    assert_eq!(k.manager.ready_queue, vec![child]);
}

#[test]
fn exec_on_missing_image_leaves_task_unchanged() {
    let (mut k, root) = booted();
    assert_eq!(sys_mmap(&mut k, 0x10000, 4096, 0b001), 0);
    assert_eq!(sys_exec(&mut k, &"prog".to_string()), -1);
    assert_eq!(task(&k, root).memory_set.areas.len(), 1);
}

#[test]
fn exec_replaces_address_space_in_place() {
    let (mut k, root) = booted();
    k.register_program("prog".to_string());
    assert_eq!(sys_mmap(&mut k, 0x10000, 4096, 0b001), 0);
    let child = sys_fork(&mut k) as usize;
    assert_eq!(sys_exec(&mut k, &"prog".to_string()), 0);
    assert!(task(&k, root).memory_set.areas.is_empty());
    assert_eq!(task(&k, root).trap_cx.x10, 0);
    // pid and process-tree links survive the exec
    assert_eq!(sys_getpid(&k), root as isize);
    assert_eq!(task(&k, root).children, vec![child]);
}

#[test]
fn sbrk_moves_the_program_break() {
    let (mut k, root) = booted();
    assert_eq!(sys_sbrk(&mut k, 4096), 0);
    assert_eq!(task(&k, root).memory_set.program_brk, 4096);
    assert_eq!(sys_sbrk(&mut k, 4096), 4096);
    assert_eq!(sys_sbrk(&mut k, -2048), 8192);
    assert_eq!(task(&k, root).memory_set.program_brk, 6144);
    // shrinking below the heap bottom fails and changes nothing
    assert_eq!(sys_sbrk(&mut k, -9000), -1);
    assert_eq!(task(&k, root).memory_set.program_brk, 6144);
}

#[test]
fn get_time_splits_microseconds() {
    let (k, _root) = booted();
    let mut tv = TimeVal { sec: 0, usec: 0 };
    assert_eq!(sys_get_time(&k, &mut tv, 3_500_042), 0);
    assert_eq!(tv.sec, 3);
    assert_eq!(tv.usec, 500_042);
}

#[test]
fn task_info_reports_counters_and_elapsed_time() {
    let mut k = Kernel::new();
    let root = k.create_root();
    assert_eq!(k.fetch_task(100), Some(root));
    k.inc_syscall_times(64);
    k.inc_syscall_times(64);
    k.inc_syscall_times(93);
    let mut info = TaskInfo { status: TaskStatus::Ready, syscall_times: Vec::new(), time: 0 };
    assert_eq!(sys_task_info(&k, &mut info, 250), 0);
    assert_eq!(info.status, TaskStatus::Running);
    assert_eq!(info.time, 150);
    assert_eq!(info.syscall_times.len(), proc_core::MAX_SYSCALL_NUM);
    assert_eq!(info.syscall_times[64], 2);
    assert_eq!(info.syscall_times[93], 1);
    assert_eq!(info.syscall_times[0], 0);
}

#[test]
fn exit_reparents_grandchildren_to_root() {
    let (mut k, root) = booted();
    let child = sys_fork(&mut k) as usize;
    sys_yield(&mut k);
    assert_eq!(k.fetch_task(1), Some(child));
    let grandchild = sys_fork(&mut k) as usize;
    sys_exit(&mut k, 0);
    assert_eq!(task(&k, grandchild).parent, Some(root));
    assert_eq!(task(&k, root).children, vec![child, grandchild]);
    assert!(task(&k, child).children.is_empty());
    assert_eq!(task(&k, child).task_status, TaskStatus::Zombie);
}
