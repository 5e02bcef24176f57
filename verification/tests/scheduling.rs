use proc_core::kernel::Kernel;
use proc_core::process::sys_exit;
use proc_core::process::sys_fork;
use proc_core::process::sys_set_priority;
use proc_core::process::sys_spawn;
use proc_core::process::sys_waitpid;
use proc_core::process::sys_yield;
use proc_core::tcb::TaskStatus;

fn booted() -> (Kernel, usize) {
    let mut k = Kernel::new();
    let root = k.create_root();
    assert_eq!(k.fetch_task(0), Some(root));
    (k, root)
}

#[test]
fn idle_queue_dispatches_nothing() {
    let mut k = Kernel::new();
    assert_eq!(k.fetch_task(0), None);
}

#[test]
fn fifo_order_breaks_stride_ties() {
    let (mut k, _root) = booted();
    let a = sys_fork(&mut k) as usize;
    let b = sys_fork(&mut k) as usize;
    sys_yield(&mut k);
    // both children carry stride 0; the first enqueued wins the tie
    assert_eq!(k.fetch_task(1), Some(a));
    sys_yield(&mut k);
    assert_eq!(k.fetch_task(2), Some(b));
}

#[test]
fn scenario_root_forks_twice_and_reaps_in_order() {
    let (mut k, root) = booted();
    let c1 = sys_fork(&mut k);
    let c2 = sys_fork(&mut k);
    let mut code: i32 = -1;
    // neither child has exited yet
    assert_eq!(sys_waitpid(&mut k, -1, &mut code), -2);
    // C1 runs and exits with code 7
    sys_yield(&mut k);
    assert_eq!(k.fetch_task(1), Some(c1 as usize));
    sys_exit(&mut k, 7);
    // C2 runs and yields without exiting
    assert_eq!(k.fetch_task(2), Some(c2 as usize));
    sys_yield(&mut k);
    // the root runs again and reaps C1
    assert_eq!(k.fetch_task(3), Some(root));
    assert_eq!(sys_waitpid(&mut k, -1, &mut code), c1);
    assert_eq!(code, 7);
    // C2 is still alive, so the next wait is "not ready"
    assert_eq!(sys_waitpid(&mut k, -1, &mut code), -2);
}

#[test]
fn spawn_failure_leaves_ready_queue_size_unchanged() {
    let (mut k, _root) = booted();
    let before = k.manager.ready_queue.clone();
    assert_eq!(sys_spawn(&mut k, &"missing".to_string()), -1);
    assert_eq!(k.manager.ready_queue, before);
}

#[test]
fn dispatch_charges_the_chosen_task_one_pass() {
    let (mut k, root) = booted();
    let child = sys_fork(&mut k) as usize;
    sys_yield(&mut k);
    // child stride 0 beats the root's already-charged stride
    assert_eq!(k.fetch_task(1), Some(child));
    let charged = k.tasks.iter().find(|t| t.pid == child).unwrap().stride;
    let priority = k.tasks.iter().find(|t| t.pid == child).unwrap().priority;
    assert_eq!(charged, proc_core::BIG_STRIDE / priority);
    let root_stride = k.tasks.iter().find(|t| t.pid == root).unwrap().stride;
    assert_eq!(root_stride, proc_core::BIG_STRIDE / proc_core::DEFAULT_PRIORITY);
}

#[test]
fn higher_priority_runs_proportionally_more_often() {
    let (mut k, _root) = booted();
    let a = sys_fork(&mut k) as usize;
    let b = sys_fork(&mut k) as usize;
    // the root steps aside for good
    sys_exit(&mut k, 0);
    // each child sets its own priority on its first slice: A twice B's
    assert_eq!(k.fetch_task(1), Some(a));
    assert_eq!(sys_set_priority(&mut k, 4), 4);
    sys_yield(&mut k);
    assert_eq!(k.fetch_task(2), Some(b));
    assert_eq!(sys_set_priority(&mut k, 2), 2);
    sys_yield(&mut k);
    // a long run of dispatches with both tasks always Ready
    let mut count_a: usize = 0;
    let mut count_b: usize = 0;
    for step in 0..60 {
        let pid = k.fetch_task(3 + step).expect("both tasks stay ready");
        if pid == a {
            count_a += 1;
        } else {
            assert_eq!(pid, b);
            count_b += 1;
        }
        sys_yield(&mut k);
    }
    assert_eq!(count_a + count_b, 60);
    // dispatch counts track the 4:2 priority ratio, up to one pass of drift
    assert!(count_a >= 2 * count_b - 2, "count_a={count_a} count_b={count_b}");
    assert!(count_a <= 2 * count_b + 2, "count_a={count_a} count_b={count_b}");
}

#[test]
fn zombie_parent_keeps_exit_code_until_reaped() {
    let (mut k, root) = booted();
    let child = sys_fork(&mut k) as usize;
    sys_yield(&mut k);
    assert_eq!(k.fetch_task(1), Some(child));
    sys_exit(&mut k, -13);
    let zombie = k.tasks.iter().find(|t| t.pid == child).unwrap();
    assert_eq!(zombie.task_status, TaskStatus::Zombie);
    assert_eq!(zombie.exit_code, -13);
    assert!(zombie.memory_set.areas.is_empty());
    assert_eq!(k.fetch_task(2), Some(root));
    let mut code: i32 = 0;
    assert_eq!(sys_waitpid(&mut k, child as isize, &mut code), child as isize);
    assert_eq!(code, -13);
}
