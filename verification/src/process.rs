//! Process-management syscalls.
//!
//! Each entry point acts on behalf of the kernel's current task. Arguments
//! arrive as plain integers, exactly as the trap layer decodes them from
//! registers; results are the signed values the trap layer writes back into
//! the task's return-value register (negative values are error codes).
//! Values that the syscall ABI passes through user-memory pointers — the
//! `waitpid` exit code, `get_time`'s output record, `task_info`'s report —
//! are taken as `&mut` out-parameters here; the page-table walk that copies
//! them into user pages belongs to the surrounding address-translation
//! layer.

use crate::kernel::has_program;
use crate::kernel::Kernel;
use crate::mem::has_exact_area;
use crate::mem::is_exact_area;
use crate::mem::range_free;
use crate::mem::AddressSpace;
use crate::mem::MapArea;
use crate::tcb::find_index;
use crate::tcb::has_pid;
use crate::tcb::idx_of;
use crate::tcb::lemma_idx_of;
use crate::tcb::new_tcb;
use crate::tcb::pids_unique;
use crate::tcb::task_of;
use crate::tcb::TaskControlBlock;
use crate::tcb::TaskStatus;
use crate::tcb::TrapContext;
use crate::kernel::lemma_plain_update_wf;
use crate::MAX_PID;
use crate::PAGE_SIZE;
use vstd::prelude::*;

verus! {

/// Wall-clock time split into whole seconds and the microseconds left over.
#[derive(Clone, Copy, PartialEq, Eq, Structural, Debug)]
pub struct TimeVal {
    pub sec: usize,
    pub usec: usize,
}

/// What `sys_task_info` reports about the current task.
#[derive(Debug)]
pub struct TaskInfo {
    /// Task status in its life cycle.
    pub status: TaskStatus,
    /// One counter per syscall number, bumped at each syscall entry.
    pub syscall_times: Vec<u32>,
    /// Milliseconds since the task was first dispatched.
    pub time: usize,
}

/// All kernel state other than the task arena is unchanged.
pub open spec fn same_but_tasks(pre: Kernel, post: Kernel) -> bool {
    &&& post.manager.ready_queue@ == pre.manager.ready_queue@
    &&& post.current == pre.current
    &&& post.next_pid == pre.next_pid
    &&& post.root_pid == pre.root_pid
    &&& post.programs@ == pre.programs@
}

/// Pid of the current task.
pub fn sys_getpid(k: &Kernel) -> (r: isize)
    requires
        k.wf(),
        k.has_current(),
    ensures
        r == k.cur_pid() as isize,
        r >= 0,
{
    proof {
        lemma_idx_of(k.tasks@, k.cur_pid());
    }
    let pid = match k.current {
        Some(p) => p,
        None => 0,
    };
    pid as isize
}

/// The current task gives the CPU up: it re-enters the ready queue as a
/// Ready task and the CPU is left idle for the next dispatch.
pub fn sys_yield(k: &mut Kernel) -> (r: isize)
    requires
        old(k).wf(),
        old(k).has_current(),
    ensures
        final(k).wf(),
        r == 0,
        final(k).current is None,
        final(k).manager.ready_queue@ == old(k).manager.ready_queue@.push(old(k).cur_pid()),
        final(k).tasks@ == old(k).tasks@.update(
            old(k).cur_idx(),
            (TaskControlBlock { task_status: TaskStatus::Ready, ..old(k).cur_task() }),
        ),
        final(k).next_pid == old(k).next_pid,
        final(k).root_pid == old(k).root_pid,
        final(k).programs@ == old(k).programs@,
{
    proof {
        lemma_idx_of(old(k).tasks@, old(k).cur_pid());
    }
    let pid = match k.current {
        Some(p) => p,
        None => 0,
    };
    let ti = find_index(&k.tasks, pid).unwrap();
    k.tasks[ti].task_status = TaskStatus::Ready;
    k.manager.add(pid);
    k.current = None;
    proof {
        let i = old(k).cur_idx();
        let t1 = TaskControlBlock { task_status: TaskStatus::Ready, ..old(k).cur_task() };
        assert(k.tasks@ =~= old(k).tasks@.update(i, t1));
        crate::tcb::lemma_update_same_pid(old(k).tasks@, i, t1);
        assert forall|l: int|
            0 <= l < k.manager.ready_queue@.len() implies has_pid(
            k.tasks@,
            #[trigger] k.manager.ready_queue@[l],
        ) && task_of(k.tasks@, k.manager.ready_queue@[l]).task_status is Ready by {
            if l < old(k).manager.ready_queue@.len() {
                assert(k.manager.ready_queue@[l] == old(k).manager.ready_queue@[l]);
                assert(old(k).manager.ready_queue@[l] != pid);
            } else {
                assert(k.manager.ready_queue@[l] == pid);
            }
        }
        assert forall|x: int, y: int|
            0 <= x < y < k.manager.ready_queue@.len() implies k.manager.ready_queue@[x]
            != k.manager.ready_queue@[y] by {
            if y == old(k).manager.ready_queue@.len() {
                assert(old(k).manager.ready_queue@[x] != pid);
            }
        }
        assert forall|l: int|
            0 <= l < k.tasks@.len() && (#[trigger] k.tasks@[l]).task_status is Running
            implies k.current == Some(k.tasks@[l].pid) by {
            if l != i {
                assert(k.tasks@[l] == old(k).tasks@[l]);
            }
        }
        assert(k.wf());
    }
    0
}

/// Sets the current task's scheduling priority. Any priority below 2 is
/// rejected with -1 and nothing changes; otherwise the new priority is
/// stored and echoed back, and later dispatches charge the task a pass of
/// `BIG_STRIDE / priority`.
pub fn sys_set_priority(k: &mut Kernel, prio: isize) -> (r: isize)
    requires
        old(k).wf(),
        old(k).has_current(),
    ensures
        final(k).wf(),
        prio < 2 ==> r == -1 && *final(k) == *old(k),
        prio >= 2 ==> r == prio && final(k).tasks@ == old(k).tasks@.update(
            old(k).cur_idx(),
            (TaskControlBlock { priority: prio as usize, ..old(k).cur_task() }),
        ) && same_but_tasks(*old(k), *final(k)),
{
    if prio < 2 {
        return -1;
    }
    proof {
        lemma_idx_of(old(k).tasks@, old(k).cur_pid());
    }
    let pid = match k.current {
        Some(p) => p,
        None => 0,
    };
    let ti = find_index(&k.tasks, pid).unwrap();
    k.tasks[ti].priority = prio as usize;
    proof {
        let t1 = TaskControlBlock { priority: prio as usize, ..old(k).cur_task() };
        assert(k.tasks@ =~= old(k).tasks@.update(old(k).cur_idx(), t1));
        lemma_plain_update_wf(*old(k), *k, t1);
    }
    prio
}

/// Moves the current task's program break by `size` bytes and reports the
/// old break, or -1 when the new break would leave the valid heap range.
pub fn sys_sbrk(k: &mut Kernel, size: i32) -> (r: isize)
    requires
        old(k).wf(),
        old(k).has_current(),
    ensures
        final(k).wf(),
        ({
            let space = old(k).cur_task().memory_set;
            let fits = space.heap_bottom <= space.program_brk + size && space.program_brk + size
                <= crate::MAX_VA;
            &&& (!fits ==> r == -1 && final(k).tasks@ == old(k).tasks@ && same_but_tasks(
                *old(k),
                *final(k),
            ))
            &&& (fits ==> {
                &&& r == space.program_brk as isize
                &&& final(k).tasks@ == old(k).tasks@.update(
                    old(k).cur_idx(),
                    (TaskControlBlock {
                        memory_set: final(k).tasks@[old(k).cur_idx()].memory_set,
                        ..old(k).cur_task()
                    }),
                )
                &&& final(k).tasks@[old(k).cur_idx()].memory_set.program_brk
                    == space.program_brk + size
                &&& final(k).tasks@[old(k).cur_idx()].memory_set.heap_bottom == space.heap_bottom
                &&& final(k).tasks@[old(k).cur_idx()].memory_set.areas@ == space.areas@
                &&& same_but_tasks(*old(k), *final(k))
            })
        }),
{
    proof {
        lemma_idx_of(old(k).tasks@, old(k).cur_pid());
    }
    let pid = match k.current {
        Some(p) => p,
        None => 0,
    };
    let ti = find_index(&k.tasks, pid).unwrap();
    let res = k.tasks[ti].memory_set.change_program_brk(size);
    match res {
        Some(old_brk) => {
            proof {
                let t1 = k.tasks@[old(k).cur_idx()];
                assert(k.tasks@ =~= old(k).tasks@.update(old(k).cur_idx(), t1));
                lemma_plain_update_wf(*old(k), *k, t1);
            }
            old_brk as isize
        },
        None => {
            proof {
                assert(k.tasks@ =~= old(k).tasks@);
            }
            -1
        },
    }
}

/// A brand-new task block as `fork` and `spawn` create it: Ready, stride
/// zero, fresh accounting, no children, cleared return-value register.
pub open spec fn fresh_child(t: TaskControlBlock, pid: usize, parent: usize, priority: usize) -> bool {
    &&& t.pid == pid
    &&& t.task_status is Ready
    &&& t.parent == Some(parent)
    &&& t.children@.len() == 0
    &&& t.exit_code == 0
    &&& t.priority == priority
    &&& t.stride == 0
    &&& t.syscall_times@.len() == crate::MAX_SYSCALL_NUM
    &&& forall|i: int| 0 <= i < t.syscall_times@.len() ==> t.syscall_times@[i] == 0
    &&& t.first_execute_time is None
    &&& t.trap_cx.x10 == 0
}

/// Appending a fresh Ready child of the current task — recorded in the
/// parent's child list and the ready queue — preserves the global
/// invariant.
#[verifier::rlimit(60)]
pub proof fn lemma_new_child_wf(pre: Kernel, post: Kernel, child: TaskControlBlock)
    requires
        pre.wf(),
        pre.has_current(),
        pre.next_pid < MAX_PID,
        child.wf(),
        child.pid == pre.next_pid,
        child.task_status is Ready,
        child.parent == Some(pre.cur_pid()),
        child.children@.len() == 0,
        post.tasks@.len() == pre.tasks@.len() + 1,
        post.tasks@[pre.tasks@.len() as int] == child,
        post.tasks@[pre.cur_idx()] == (TaskControlBlock {
            children: post.tasks@[pre.cur_idx()].children,
            ..pre.cur_task()
        }),
        post.tasks@[pre.cur_idx()].children@ == pre.cur_task().children@.push(child.pid),
        forall|l: int|
            0 <= l < pre.tasks@.len() && l != pre.cur_idx() ==> post.tasks@[l] == pre.tasks@[l],
        post.manager.ready_queue@ == pre.manager.ready_queue@.push(child.pid),
        post.current == pre.current,
        post.next_pid == pre.next_pid + 1,
        post.root_pid == pre.root_pid,
    ensures
        post.wf(),
{
    let n = pre.tasks@.len() as int;
    let ci = pre.cur_idx();
    let cur = pre.cur_pid();
    lemma_idx_of(pre.tasks@, cur);
    let t1 = post.tasks@[ci];
    crate::tcb::lemma_push_new_pid(pre.tasks@, post.tasks@, ci, t1, child);
    assert(task_of(pre.tasks@, cur).task_status is Running);
    assert forall|l: int|
        0 <= l < post.manager.ready_queue@.len() implies has_pid(
        post.tasks@,
        #[trigger] post.manager.ready_queue@[l],
    ) && task_of(post.tasks@, post.manager.ready_queue@[l]).task_status is Ready by {
        if l < pre.manager.ready_queue@.len() {
            let e = pre.manager.ready_queue@[l];
            assert(post.manager.ready_queue@[l] == e);
            assert(has_pid(pre.tasks@, e));
            lemma_idx_of(pre.tasks@, e);
            assert(e != child.pid);
            assert(e != cur);
        } else {
            assert(post.manager.ready_queue@[l] == child.pid);
        }
    }
    assert forall|x: int, y: int|
        0 <= x < y < post.manager.ready_queue@.len() implies post.manager.ready_queue@[x]
        != post.manager.ready_queue@[y] by {
        if y == pre.manager.ready_queue@.len() {
            let e = pre.manager.ready_queue@[x];
            assert(has_pid(pre.tasks@, e));
            lemma_idx_of(pre.tasks@, e);
        }
    }
    assert forall|l: int|
        0 <= l < post.tasks@.len() && (#[trigger] post.tasks@[l]).task_status is Running
        implies post.current == Some(post.tasks@[l].pid) by {
        if l < n && l != ci {
            assert(post.tasks@[l] == pre.tasks@[l]);
        }
    }
    assert forall|i: int, j: int|
        0 <= i < post.tasks@.len() && 0 <= j < post.tasks@[i].children@.len() implies has_pid(
        post.tasks@,
        #[trigger] post.tasks@[i].children@[j],
    ) && task_of(post.tasks@, post.tasks@[i].children@[j]).parent == Some(post.tasks@[i].pid) by {
        if i == n {
            assert(post.tasks@[i].children@.len() == 0);
        } else {
            let owner_old = pre.tasks@[i];
            if i == ci && j == owner_old.children@.len() {
                assert(post.tasks@[i].children@[j] == child.pid);
                assert(task_of(post.tasks@, child.pid) == child);
            } else {
                let e = owner_old.children@[j];
                assert(post.tasks@[i].children@[j] == e);
                assert(has_pid(pre.tasks@, e));
                lemma_idx_of(pre.tasks@, e);
                assert(e != child.pid);
                assert(task_of(pre.tasks@, e).parent == Some(owner_old.pid));
                if e == cur {
                    assert(task_of(pre.tasks@, cur).parent == Some(owner_old.pid));
                    assert(task_of(post.tasks@, cur) == t1);
                } else {
                    assert(task_of(post.tasks@, e) == task_of(pre.tasks@, e));
                }
            }
        }
    }
    assert forall|i: int, j1: int, j2: int|
        0 <= i < post.tasks@.len() && 0 <= j1 < j2 < post.tasks@[i].children@.len()
        implies post.tasks@[i].children@[j1] != post.tasks@[i].children@[j2] by {
        if i < n {
            let owner_old = pre.tasks@[i];
            if i == ci && j2 == owner_old.children@.len() {
                let e = owner_old.children@[j1];
                assert(has_pid(pre.tasks@, e));
                lemma_idx_of(pre.tasks@, e);
            }
        }
    }
    assert(has_pid(post.tasks@, post.root_pid) && task_of(
        post.tasks@,
        post.root_pid,
    ).parent is None) by {
        assert(has_pid(pre.tasks@, pre.root_pid));
        lemma_idx_of(pre.tasks@, pre.root_pid);
        if pre.root_pid == cur {
            assert(task_of(post.tasks@, cur) == t1);
        } else {
            assert(task_of(post.tasks@, pre.root_pid) == task_of(pre.tasks@, pre.root_pid));
        }
    }
}

/// The address is at a page boundary.
pub open spec fn page_aligned(a: usize) -> bool {
    a % PAGE_SIZE == 0
}

/// The permission word asks only for read/write/execute bits and for at
/// least one of them.
pub open spec fn port_valid(port: usize) -> bool {
    port & !0x7 == 0 && port & 0x7 != 0
}

/// Map permissions derived from a valid permission word: its low three bits
/// plus the user-accessible flag.
pub open spec fn perm_of(port: usize) -> u8 {
    ((port & 0x7) as u8) | 0x8
}

/// Page number of the page containing this address.
pub open spec fn floor_vpn(a: usize) -> usize {
    a / PAGE_SIZE
}

/// Page number just past the last page touched by an address range ending
/// at `a`.
pub open spec fn ceil_vpn(a: usize) -> usize {
    if a % PAGE_SIZE == 0 {
        a / PAGE_SIZE
    } else {
        (a / PAGE_SIZE + 1) as usize
    }
}

/// Maps the page range covering `[start, start + len)` into the current
/// task's address space, backed by fresh frames, with the permissions the
/// low three bits of `port` request plus the user flag. Fails with -1 — and
/// changes nothing — when `start` is not page-aligned, when `port` has high
/// bits set or requests no permission, when the byte range overflows the
/// address type, or when the page range overlaps an existing area. A
/// zero-length request succeeds as a no-op.
pub fn sys_mmap(k: &mut Kernel, start: usize, len: usize, port: usize) -> (r: isize)
    requires
        old(k).wf(),
        old(k).has_current(),
    ensures
        final(k).wf(),
        !page_aligned(start) ==> r == -1 && *final(k) == *old(k),
        page_aligned(start) && !port_valid(port) ==> r == -1 && *final(k) == *old(k),
        page_aligned(start) && port_valid(port) && len == 0 ==> r == 0 && *final(k) == *old(k),
        page_aligned(start) && port_valid(port) && len > 0 && start + len > usize::MAX ==> r == -1
            && *final(k) == *old(k),
        page_aligned(start) && port_valid(port) && 0 < len && start + len <= usize::MAX ==> ({
            let s_vpn = floor_vpn(start);
            let e_vpn = ceil_vpn((start + len) as usize);
            let space = old(k).cur_task().memory_set;
            &&& (!range_free(space.areas@, s_vpn, e_vpn) ==> r == -1 && final(k).tasks@ == old(
                k,
            ).tasks@ && same_but_tasks(*old(k), *final(k)))
            &&& (range_free(space.areas@, s_vpn, e_vpn) ==> {
                &&& r == 0
                &&& final(k).tasks@ == old(k).tasks@.update(
                    old(k).cur_idx(),
                    (TaskControlBlock {
                        memory_set: final(k).tasks@[old(k).cur_idx()].memory_set,
                        ..old(k).cur_task()
                    }),
                )
                &&& final(k).tasks@[old(k).cur_idx()].memory_set.areas@ == space.areas@.push(
                    (MapArea { start_vpn: s_vpn, end_vpn: e_vpn, perm: perm_of(port) }),
                )
                &&& final(k).tasks@[old(k).cur_idx()].memory_set.heap_bottom == space.heap_bottom
                &&& final(k).tasks@[old(k).cur_idx()].memory_set.program_brk == space.program_brk
                &&& same_but_tasks(*old(k), *final(k))
            })
        }),
{
    if start % PAGE_SIZE != 0 {
        return -1;
    }
    if port & !0x7 != 0 || port & 0x7 == 0 {
        return -1;
    }
    if len == 0 {
        return 0;
    }
    if len > usize::MAX - start {
        return -1;
    }
    let end = start + len;
    let s_vpn = start / PAGE_SIZE;
    let e_vpn = end / PAGE_SIZE + (if end % PAGE_SIZE != 0 {
        1
    } else {
        0
    });
    proof {
        assert(s_vpn < e_vpn) by {
            assert(start == PAGE_SIZE * (start / PAGE_SIZE) + start % PAGE_SIZE);
            assert(end == PAGE_SIZE * (end / PAGE_SIZE) + end % PAGE_SIZE);
        }
    }
    let perm = ((port & 0x7) as u8) | 0x8;
    proof {
        lemma_idx_of(old(k).tasks@, old(k).cur_pid());
    }
    let pid = match k.current {
        Some(p) => p,
        None => 0,
    };
    let ti = find_index(&k.tasks, pid).unwrap();
    let ok = k.tasks[ti].memory_set.insert_framed_area(s_vpn, e_vpn, perm);
    proof {
        let t1 = k.tasks@[old(k).cur_idx()];
        assert(k.tasks@ =~= old(k).tasks@.update(old(k).cur_idx(), t1));
        lemma_plain_update_wf(*old(k), *k, t1);
    }
    if ok {
        0
    } else {
        -1
    }
}

/// Removes the mapping that covers exactly the page range of
/// `[start, start + len)`. Fails with -1 — and changes nothing — when
/// `start` is not page-aligned, when the byte range overflows the address
/// type, or when no single area matches the range in full. A zero-length
/// request succeeds as a no-op.
pub fn sys_munmap(k: &mut Kernel, start: usize, len: usize) -> (r: isize)
    requires
        old(k).wf(),
        old(k).has_current(),
    ensures
        final(k).wf(),
        !page_aligned(start) ==> r == -1 && *final(k) == *old(k),
        page_aligned(start) && len == 0 ==> r == 0 && *final(k) == *old(k),
        page_aligned(start) && len > 0 && start + len > usize::MAX ==> r == -1 && *final(k)
            == *old(k),
        page_aligned(start) && 0 < len && start + len <= usize::MAX ==> ({
            let s_vpn = floor_vpn(start);
            let e_vpn = ceil_vpn((start + len) as usize);
            let space = old(k).cur_task().memory_set;
            &&& (!has_exact_area(space.areas@, s_vpn, e_vpn) ==> r == -1 && final(k).tasks@ == old(
                k,
            ).tasks@ && same_but_tasks(*old(k), *final(k)))
            &&& (has_exact_area(space.areas@, s_vpn, e_vpn) ==> {
                &&& r == 0
                &&& final(k).tasks@ == old(k).tasks@.update(
                    old(k).cur_idx(),
                    (TaskControlBlock {
                        memory_set: final(k).tasks@[old(k).cur_idx()].memory_set,
                        ..old(k).cur_task()
                    }),
                )
                &&& exists|j: int|
                    is_exact_area(space.areas@, j, s_vpn, e_vpn) && final(k).tasks@[old(
                        k,
                    ).cur_idx()].memory_set.areas@ == space.areas@.remove(j)
                &&& final(k).tasks@[old(k).cur_idx()].memory_set.heap_bottom == space.heap_bottom
                &&& final(k).tasks@[old(k).cur_idx()].memory_set.program_brk == space.program_brk
                &&& same_but_tasks(*old(k), *final(k))
            })
        }),
{
    if start % PAGE_SIZE != 0 {
        return -1;
    }
    if len == 0 {
        return 0;
    }
    if len > usize::MAX - start {
        return -1;
    }
    let end = start + len;
    let s_vpn = start / PAGE_SIZE;
    let e_vpn = end / PAGE_SIZE + (if end % PAGE_SIZE != 0 {
        1
    } else {
        0
    });
    proof {
        lemma_idx_of(old(k).tasks@, old(k).cur_pid());
    }
    let pid = match k.current {
        Some(p) => p,
        None => 0,
    };
    let ti = find_index(&k.tasks, pid).unwrap();
    let ok = k.tasks[ti].memory_set.unmap_area(s_vpn, e_vpn);
    proof {
        let t1 = k.tasks@[old(k).cur_idx()];
        assert(k.tasks@ =~= old(k).tasks@.update(old(k).cur_idx(), t1));
        lemma_plain_update_wf(*old(k), *k, t1);
    }
    if ok {
        0
    } else {
        -1
    }
}

/// The block with its parent link redirected.
pub open spec fn with_parent(t: TaskControlBlock, p: usize) -> TaskControlBlock {
    TaskControlBlock { parent: Some(p), ..t }
}

/// Ends the current task: it becomes a Zombie carrying `exit_code`, its
/// address-space resources are discarded at once, and the CPU is left idle
/// for the next dispatch. The block itself stays in the arena until the
/// parent reaps it. Orphan policy: every child of the exiting task is
/// reparented to the root task and added to the root's child list; when the
/// root itself exits its children stay where they are, since no task
/// outranks it. Control never returns to the exiting task.
#[verifier::rlimit(100)]
pub fn sys_exit(k: &mut Kernel, exit_code: i32)
    requires
        old(k).wf(),
        old(k).has_current(),
    ensures
        final(k).wf(),
        final(k).current is None,
        final(k).manager.ready_queue@ == old(k).manager.ready_queue@,
        final(k).next_pid == old(k).next_pid,
        final(k).root_pid == old(k).root_pid,
        final(k).programs@ == old(k).programs@,
        final(k).tasks@.len() == old(k).tasks@.len(),
        ({
            let t1 = final(k).tasks@[old(k).cur_idx()];
            &&& t1 == (TaskControlBlock {
                task_status: TaskStatus::Zombie,
                exit_code: exit_code,
                memory_set: t1.memory_set,
                children: t1.children,
                ..old(k).cur_task()
            })
            &&& t1.memory_set.areas@.len() == 0
            &&& t1.memory_set.heap_bottom == 0
            &&& t1.memory_set.program_brk == 0
            &&& (old(k).cur_pid() == old(k).root_pid ==> t1.children@ == old(
                k,
            ).cur_task().children@)
            &&& (old(k).cur_pid() != old(k).root_pid ==> t1.children@.len() == 0)
        }),
        old(k).cur_pid() != old(k).root_pid ==> ({
            let ri = idx_of(old(k).tasks@, old(k).root_pid);
            let r1 = final(k).tasks@[ri];
            &&& r1 == (TaskControlBlock { children: r1.children, ..old(k).tasks@[ri] })
            &&& r1.children@ == old(k).tasks@[ri].children@ + old(k).cur_task().children@
        }),
        old(k).cur_pid() != old(k).root_pid ==> forall|l: int|
            0 <= l < old(k).tasks@.len() && l != old(k).cur_idx() && l != idx_of(
                old(k).tasks@,
                old(k).root_pid,
            ) ==> (if old(k).cur_task().children@.contains(old(k).tasks@[l].pid) {
                final(k).tasks@[l] == with_parent(old(k).tasks@[l], old(k).root_pid)
            } else {
                final(k).tasks@[l] == old(k).tasks@[l]
            }),
        old(k).cur_pid() == old(k).root_pid ==> forall|l: int|
            0 <= l < old(k).tasks@.len() && l != old(k).cur_idx() ==> final(k).tasks@[l] == old(
                k,
            ).tasks@[l],
{
    proof {
        lemma_idx_of(old(k).tasks@, old(k).cur_pid());
    }
    let cur = match k.current {
        Some(p) => p,
        None => 0,
    };
    let ci = find_index(&k.tasks, cur).unwrap();
    k.tasks[ci].task_status = TaskStatus::Zombie;
    k.tasks[ci].exit_code = exit_code;
    k.tasks[ci].memory_set = AddressSpace::new();
    let ghost snap1 = k.tasks@;
    proof {
        assert(forall|l: int|
            0 <= l < snap1.len() ==> (#[trigger] snap1[l]).pid == old(k).tasks@[l].pid);
        assert forall|x: int, y: int| 0 <= x < y < snap1.len() implies snap1[x].pid
            != snap1[y].pid by {
            assert(old(k).tasks@[x].pid != old(k).tasks@[y].pid);
        }
    }
    let root = k.root_pid;
    if cur != root {
        proof {
            assert(has_pid(old(k).tasks@, root));
            lemma_idx_of(old(k).tasks@, root);
            assert(has_pid(snap1, root)) by {
                assert(snap1[idx_of(old(k).tasks@, root)].pid == root);
            }
        }
        let ri = find_index(&k.tasks, root).unwrap();
        let ghost children = snap1[ci as int].children@;
        proof {
            assert(children == old(k).cur_task().children@);
            assert forall|j: int| 0 <= j < children.len() implies has_pid(
                old(k).tasks@,
                #[trigger] children[j],
            ) && has_pid(snap1, children[j]) && task_of(old(k).tasks@, children[j]).parent
                == Some(cur) && children[j] != cur && children[j] != root by {
                assert(old(k).tasks@[ci as int].children@[j] == children[j]);
                lemma_idx_of(old(k).tasks@, children[j]);
                let w = idx_of(old(k).tasks@, children[j]);
                assert(snap1[w].pid == children[j]);
                if children[j] == root {
                    assert(task_of(old(k).tasks@, root).parent is None);
                }
                if children[j] == cur {
                    assert(task_of(old(k).tasks@, cur).parent == Some(cur));
                    assert(old(k).cur_task().wf());
                }
            }
        }
        let n = k.tasks[ci].children.len();
        let mut i: usize = 0;
        while i < n
            invariant
                k.tasks@.len() == snap1.len(),
                ci < snap1.len(),
                ri < snap1.len(),
                ci != ri,
                i <= n,
                n == children.len(),
                snap1[ci as int].children@ == children,
                forall|l: int|
                    0 <= l < snap1.len() ==> (#[trigger] k.tasks@[l]).pid == snap1[l].pid,
                pids_unique(snap1),
                forall|j: int|
                    0 <= j < children.len() ==> #[trigger] children[j] != cur && children[j]
                        != root && has_pid(snap1, children[j]),
                forall|j1: int, j2: int|
                    0 <= j1 < j2 < children.len() ==> children[j1] != children[j2],
                k.manager == old(k).manager,
                k.current == old(k).current,
                k.next_pid == old(k).next_pid,
                k.root_pid == old(k).root_pid,
                k.programs == old(k).programs,
                forall|l: int|
                    0 <= l < snap1.len() ==> #[trigger] k.tasks@[l] == (
                    if children.subrange(0, i as int).contains(snap1[l].pid) {
                        with_parent(snap1[l], root)
                    } else {
                        snap1[l]
                    }),
            decreases n - i,
        {
            proof {
                assert forall|x: int, y: int| 0 <= x < y < k.tasks@.len() implies k.tasks@[x].pid
                    != k.tasks@[y].pid by {
                    assert(snap1[x].pid != snap1[y].pid);
                }
                assert(children[i as int] == snap1[ci as int].children@[i as int]);
                assert(k.tasks@[ci as int].children@ == children);
            }
            let c = k.tasks[ci].children[i];
            proof {
                assert(has_pid(snap1, c));
                assert(has_pid(k.tasks@, c)) by {
                    let w = idx_of(snap1, c);
                    assert(k.tasks@[w].pid == snap1[w].pid);
                }
            }
            let ci2 = find_index(&k.tasks, c).unwrap();
            k.tasks[ci2].parent = Some(root);
            i += 1;
            proof {
                let pre = children.subrange(0, i as int - 1);
                let now = children.subrange(0, i as int);
                assert(now == pre.push(c));
                assert forall|l: int| 0 <= l < snap1.len() implies #[trigger] k.tasks@[l] == (
                    if now.contains(snap1[l].pid) {
                        with_parent(snap1[l], root)
                    } else {
                        snap1[l]
                    }) by {
                    lemma_idx_of(snap1, c);
                    if l == ci2 as int {
                        assert(snap1[l].pid == c);
                        assert(now.contains(c)) by {
                            assert(now[i as int - 1] == c);
                        }
                        assert(!pre.contains(c)) by {
                            if pre.contains(c) {
                                let w = choose|w: int| 0 <= w < pre.len() && pre[w] == c;
                                assert(children[w] == children[i as int - 1]);
                            }
                        }
                    } else {
                        assert(snap1[l].pid != c);
                        assert(now.contains(snap1[l].pid) == pre.contains(snap1[l].pid)) by {
                            if now.contains(snap1[l].pid) {
                                let w = choose|w: int|
                                    0 <= w < now.len() && now[w] == snap1[l].pid;
                                if w < i - 1 {
                                    assert(pre[w] == snap1[l].pid);
                                } else {
                                    assert(now[w] == c);
                                }
                            }
                            if pre.contains(snap1[l].pid) {
                                let w = choose|w: int|
                                    0 <= w < pre.len() && pre[w] == snap1[l].pid;
                                assert(now[w] == snap1[l].pid);
                            }
                        }
                    }
                }
            }
        }
        let ghost snap2 = k.tasks@;
        proof {
            assert(children.subrange(0, n as int) == children);
        }
        let mut i2: usize = 0;
        while i2 < n
            invariant
                k.tasks@.len() == snap2.len(),
                ci < snap2.len(),
                ri < snap2.len(),
                ci != ri,
                i2 <= n,
                snap2[ci as int].children@ == children,
                n == children.len(),
                forall|l: int| 0 <= l < snap2.len() && l != ri ==> k.tasks@[l] == snap2[l],
                k.tasks@[ri as int] == (TaskControlBlock {
                    children: k.tasks@[ri as int].children,
                    ..snap2[ri as int]
                }),
                k.tasks@[ri as int].children@ == snap2[ri as int].children@ + children.subrange(
                    0,
                    i2 as int,
                ),
                k.manager == old(k).manager,
                k.current == old(k).current,
                k.next_pid == old(k).next_pid,
                k.root_pid == old(k).root_pid,
                k.programs == old(k).programs,
            decreases n - i2,
        {
            let c = k.tasks[ci].children[i2];
            k.tasks[ri].children.push(c);
            i2 += 1;
            proof {
                assert(k.tasks@[ri as int].children@ =~= snap2[ri as int].children@
                    + children.subrange(0, i2 as int));
            }
        }
        k.tasks[ci].children.clear();
        proof {
            assert(children.subrange(0, n as int) == children);
            assert(!children.contains(cur)) by {
                if children.contains(cur) {
                    let w = choose|w: int| 0 <= w < children.len() && children[w] == cur;
                    assert(children[w] != cur);
                }
            }
            assert(!children.contains(root)) by {
                if children.contains(root) {
                    let w = choose|w: int| 0 <= w < children.len() && children[w] == root;
                    assert(children[w] != root);
                }
            }
            assert(ri as int == idx_of(old(k).tasks@, root)) by {
                lemma_idx_of(old(k).tasks@, root);
                let ori = idx_of(old(k).tasks@, root);
                assert(snap1[ori].pid == root);
                assert(snap1[ri as int].pid == root);
                assert forall|x: int, y: int| 0 <= x < y < snap1.len() implies snap1[x].pid
                    != snap1[y].pid by {
                    assert(old(k).tasks@[x].pid != old(k).tasks@[y].pid);
                }
            }
            assert(snap2[ci as int] == snap1[ci as int]) by {
                assert(!children.subrange(0, n as int).contains(snap1[ci as int].pid));
            }
            assert(snap2[ri as int] == snap1[ri as int]) by {
                assert(!children.subrange(0, n as int).contains(snap1[ri as int].pid));
            }
            assert forall|l: int|
                0 <= l < old(k).tasks@.len() && l != ci as int && l != ri as int implies (
            if old(k).cur_task().children@.contains(old(k).tasks@[l].pid) {
                k.tasks@[l] == with_parent(old(k).tasks@[l], root)
            } else {
                k.tasks@[l] == old(k).tasks@[l]
            }) by {
                assert(snap1[l] == old(k).tasks@[l]);
                assert(k.tasks@[l] == snap2[l]);
                assert(snap2[l] == (if children.subrange(0, n as int).contains(snap1[l].pid) {
                    with_parent(snap1[l], root)
                } else {
                    snap1[l]
                }));
            }
            assert(k.tasks@[ri as int].children@ == old(k).tasks@[ri as int].children@ + old(
                k,
            ).cur_task().children@) by {
                assert(snap2[ri as int].children@ == snap1[ri as int].children@);
            }
        }
    }
    k.current = None;
    proof {
        lemma_exit_wf(*old(k), *k, exit_code);
    }
}

/// Exiting — zombifying the current task, discarding its address space,
/// and handing its children to the root task — preserves the global
/// invariant.
#[verifier::rlimit(100)]
pub proof fn lemma_exit_wf(pre: Kernel, post: Kernel, code: i32)
    requires
        pre.wf(),
        pre.has_current(),
        post.current is None,
        post.manager.ready_queue@ == pre.manager.ready_queue@,
        post.next_pid == pre.next_pid,
        post.root_pid == pre.root_pid,
        post.tasks@.len() == pre.tasks@.len(),
        ({
            let t1 = post.tasks@[pre.cur_idx()];
            &&& t1 == (TaskControlBlock {
                task_status: TaskStatus::Zombie,
                exit_code: code,
                memory_set: t1.memory_set,
                children: t1.children,
                ..pre.cur_task()
            })
            &&& t1.memory_set.wf()
            &&& (pre.cur_pid() == pre.root_pid ==> t1.children@ == pre.cur_task().children@)
            &&& (pre.cur_pid() != pre.root_pid ==> t1.children@.len() == 0)
        }),
        pre.cur_pid() != pre.root_pid ==> ({
            let ri = idx_of(pre.tasks@, pre.root_pid);
            let r1 = post.tasks@[ri];
            &&& r1 == (TaskControlBlock { children: r1.children, ..pre.tasks@[ri] })
            &&& r1.children@ == pre.tasks@[ri].children@ + pre.cur_task().children@
        }),
        pre.cur_pid() != pre.root_pid ==> forall|l: int|
            0 <= l < pre.tasks@.len() && l != pre.cur_idx() && l != idx_of(
                pre.tasks@,
                pre.root_pid,
            ) ==> (if pre.cur_task().children@.contains(pre.tasks@[l].pid) {
                post.tasks@[l] == with_parent(pre.tasks@[l], pre.root_pid)
            } else {
                post.tasks@[l] == pre.tasks@[l]
            }),
        pre.cur_pid() == pre.root_pid ==> forall|l: int|
            0 <= l < pre.tasks@.len() && l != pre.cur_idx() ==> post.tasks@[l] == pre.tasks@[l],
    ensures
        post.wf(),
{
    let n = pre.tasks@.len() as int;
    let cur = pre.cur_pid();
    let ci = pre.cur_idx();
    let root = pre.root_pid;
    lemma_idx_of(pre.tasks@, cur);
    assert(has_pid(pre.tasks@, root));
    lemma_idx_of(pre.tasks@, root);
    let ri = idx_of(pre.tasks@, root);
    let kids = pre.cur_task().children@;
    assert forall|j: int| 0 <= j < kids.len() implies #[trigger] kids[j] != cur && kids[j] != root
        && has_pid(pre.tasks@, kids[j]) && task_of(pre.tasks@, kids[j]).parent == Some(cur) by {
        assert(pre.tasks@[ci].children@[j] == kids[j]);
        lemma_idx_of(pre.tasks@, kids[j]);
        if kids[j] == root {
            assert(task_of(pre.tasks@, root).parent is None);
        }
    }
    assert forall|l: int| 0 <= l < n implies (#[trigger] post.tasks@[l]).pid
        == pre.tasks@[l].pid && post.tasks@[l].task_status == (
    if l == ci {
        TaskStatus::Zombie
    } else {
        pre.tasks@[l].task_status
    }) && post.tasks@[l].parent == (
    if cur != root && kids.contains(pre.tasks@[l].pid) && l != ci && l != ri {
        Some(root)
    } else {
        pre.tasks@[l].parent
    }) by {
        if l != ci && (cur == root || l != ri) {
            if cur != root && kids.contains(pre.tasks@[l].pid) {
            } else {
            }
        }
    }
    assert forall|x: int, y: int| 0 <= x < y < n implies post.tasks@[x].pid
        != post.tasks@[y].pid by {
        assert(pre.tasks@[x].pid != pre.tasks@[y].pid);
    }
    assert forall|p: usize| has_pid(post.tasks@, p) implies has_pid(pre.tasks@, p) by {
        let w = choose|w: int| 0 <= w < n && post.tasks@[w].pid == p;
        assert(pre.tasks@[w].pid == p);
    }
    assert forall|p: usize| has_pid(pre.tasks@, p) implies has_pid(post.tasks@, p) && idx_of(
        post.tasks@,
        p,
    ) == idx_of(pre.tasks@, p) by {
        lemma_idx_of(pre.tasks@, p);
        let w = idx_of(pre.tasks@, p);
        assert(post.tasks@[w].pid == p);
        lemma_idx_of(post.tasks@, p);
        assert(pre.tasks@[idx_of(post.tasks@, p)].pid == p);
    }
    // every block stays well formed
    assert forall|l: int| 0 <= l < n implies (#[trigger] post.tasks@[l]).wf() by {
        assert(pre.tasks@[l].wf());
        if l == ci {
        } else if cur != root && l == ri {
        } else if cur != root && kids.contains(pre.tasks@[l].pid) {
            assert(post.tasks@[l] == with_parent(pre.tasks@[l], root));
            let w = choose|w: int| 0 <= w < kids.len() && kids[w] == pre.tasks@[l].pid;
            assert(kids[w] != root);
            assert(pre.tasks@[l].task_status is Zombie ==> pre.tasks@[l].parent is Some
                ==> pre.tasks@[l].children@.len() == 0);
        } else {
        }
    }
    // queued tasks stay Ready
    assert forall|l: int|
        0 <= l < post.manager.ready_queue@.len() implies has_pid(
        post.tasks@,
        #[trigger] post.manager.ready_queue@[l],
    ) && task_of(post.tasks@, post.manager.ready_queue@[l]).task_status is Ready by {
        let e = pre.manager.ready_queue@[l];
        assert(has_pid(pre.tasks@, e));
        lemma_idx_of(pre.tasks@, e);
        assert(task_of(pre.tasks@, e).task_status is Ready);
        assert(idx_of(pre.tasks@, e) != ci) by {
            if idx_of(pre.tasks@, e) == ci {
                assert(task_of(pre.tasks@, cur).task_status is Running);
            }
        }
    }
    // nothing is Running any more
    assert forall|l: int|
        0 <= l < post.tasks@.len() && (#[trigger] post.tasks@[l]).task_status is Running
        implies post.current == Some(post.tasks@[l].pid) by {
        if l != ci {
            assert(pre.tasks@[l].task_status is Running);
            assert(pre.current == Some(pre.tasks@[l].pid));
            assert(pre.tasks@[l].pid == cur);
            assert(l == ci);
        }
    }
    lemma_exit_tree_wf(pre, post, code);
    // the root is still the parentless task
    assert(has_pid(post.tasks@, root) && task_of(post.tasks@, root).parent is None) by {
        assert(task_of(pre.tasks@, root).parent is None);
        assert(idx_of(post.tasks@, root) == ri);
        if cur == root {
            assert(post.tasks@[ci].parent == pre.cur_task().parent);
        } else {
            assert(post.tasks@[ri].parent == pre.tasks@[ri].parent);
        }
    }
}

/// The child-list soundness part of [`lemma_exit_wf`].
#[verifier::rlimit(100)]
pub proof fn lemma_exit_tree_wf(pre: Kernel, post: Kernel, code: i32)
    requires
        pre.wf(),
        pre.has_current(),
        post.tasks@.len() == pre.tasks@.len(),
        ({
            let t1 = post.tasks@[pre.cur_idx()];
            &&& t1 == (TaskControlBlock {
                task_status: TaskStatus::Zombie,
                exit_code: code,
                memory_set: t1.memory_set,
                children: t1.children,
                ..pre.cur_task()
            })
            &&& (pre.cur_pid() == pre.root_pid ==> t1.children@ == pre.cur_task().children@)
            &&& (pre.cur_pid() != pre.root_pid ==> t1.children@.len() == 0)
        }),
        pre.cur_pid() != pre.root_pid ==> ({
            let ri = idx_of(pre.tasks@, pre.root_pid);
            let r1 = post.tasks@[ri];
            &&& r1 == (TaskControlBlock { children: r1.children, ..pre.tasks@[ri] })
            &&& r1.children@ == pre.tasks@[ri].children@ + pre.cur_task().children@
        }),
        pre.cur_pid() != pre.root_pid ==> forall|l: int|
            0 <= l < pre.tasks@.len() && l != pre.cur_idx() && l != idx_of(
                pre.tasks@,
                pre.root_pid,
            ) ==> (if pre.cur_task().children@.contains(pre.tasks@[l].pid) {
                post.tasks@[l] == with_parent(pre.tasks@[l], pre.root_pid)
            } else {
                post.tasks@[l] == pre.tasks@[l]
            }),
        pre.cur_pid() == pre.root_pid ==> forall|l: int|
            0 <= l < pre.tasks@.len() && l != pre.cur_idx() ==> post.tasks@[l] == pre.tasks@[l],
    ensures
        post.tree_wf(),
{
    let n = pre.tasks@.len() as int;
    let cur = pre.cur_pid();
    let ci = pre.cur_idx();
    let root = pre.root_pid;
    lemma_idx_of(pre.tasks@, cur);
    assert(has_pid(pre.tasks@, root));
    lemma_idx_of(pre.tasks@, root);
    let ri = idx_of(pre.tasks@, root);
    let kids = pre.cur_task().children@;
    assert forall|j: int| 0 <= j < kids.len() implies #[trigger] kids[j] != cur && kids[j] != root
        && has_pid(pre.tasks@, kids[j]) && task_of(pre.tasks@, kids[j]).parent == Some(cur) by {
        assert(pre.tasks@[ci].children@[j] == kids[j]);
        lemma_idx_of(pre.tasks@, kids[j]);
        if kids[j] == root {
            assert(task_of(pre.tasks@, root).parent is None);
        }
    }
    assert forall|l: int| 0 <= l < n implies (#[trigger] post.tasks@[l]).pid
        == pre.tasks@[l].pid && post.tasks@[l].parent == (
    if cur != root && kids.contains(pre.tasks@[l].pid) && l != ci && l != ri {
        Some(root)
    } else {
        pre.tasks@[l].parent
    }) by {}
    assert forall|x: int, y: int| 0 <= x < y < n implies post.tasks@[x].pid
        != post.tasks@[y].pid by {
        assert(pre.tasks@[x].pid != pre.tasks@[y].pid);
    }
    assert forall|p: usize| has_pid(pre.tasks@, p) implies has_pid(post.tasks@, p) && idx_of(
        post.tasks@,
        p,
    ) == idx_of(pre.tasks@, p) by {
        lemma_idx_of(pre.tasks@, p);
        let w = idx_of(pre.tasks@, p);
        assert(post.tasks@[w].pid == p);
        lemma_idx_of(post.tasks@, p);
        assert(pre.tasks@[idx_of(post.tasks@, p)].pid == p);
    }
    // child lists stay sound
    assert forall|i: int, j: int|
        0 <= i < n && 0 <= j < post.tasks@[i].children@.len() implies has_pid(
        post.tasks@,
        #[trigger] post.tasks@[i].children@[j],
    ) && task_of(post.tasks@, post.tasks@[i].children@[j]).parent == Some(post.tasks@[i].pid) by {
        if i == ci && (cur == root || post.tasks@[ci].children@.len() == 0) {
            // the exiting root keeps its children
            let e = pre.tasks@[ci].children@[j];
            assert(post.tasks@[i].children@[j] == e);
            lemma_idx_of(pre.tasks@, e);
            let w = idx_of(pre.tasks@, e);
            assert(task_of(pre.tasks@, e).parent == Some(cur));
            assert(e != cur);
            assert(w != ci);
            assert(post.tasks@[w] == pre.tasks@[w]) by {
                assert(cur == root);
                assert(e != root) by {
                    if e == root {
                        assert(task_of(pre.tasks@, root).parent is None);
                    }
                }
            }
        } else if cur != root && i == ri {
            let e = post.tasks@[ri].children@[j];
            let old_len = pre.tasks@[ri].children@.len() as int;
            if j < old_len {
                assert(e == pre.tasks@[ri].children@[j]);
                lemma_idx_of(pre.tasks@, e);
                let w = idx_of(pre.tasks@, e);
                assert(task_of(pre.tasks@, e).parent == Some(root));
                assert(e != root) by {
                    if e == root {
                        assert(task_of(pre.tasks@, root).parent is None);
                    }
                }
                assert(w != ri);
                if e == cur {
                    assert(w == ci);
                    assert(post.tasks@[ci].parent == pre.cur_task().parent);
                } else {
                    assert(w != ci);
                    assert(!kids.contains(e)) by {
                        if kids.contains(e) {
                            let w2 = choose|w2: int| 0 <= w2 < kids.len() && kids[w2] == e;
                            assert(task_of(pre.tasks@, e).parent == Some(cur));
                        }
                    }
                    assert(post.tasks@[w] == pre.tasks@[w]);
                }
            } else {
                assert(e == kids[j - old_len]);
                lemma_idx_of(pre.tasks@, e);
                let w = idx_of(pre.tasks@, e);
                assert(e != cur && e != root);
                assert(w != ci && w != ri);
                assert(kids.contains(e)) by {
                    assert(kids[j - old_len] == e);
                }
                assert(post.tasks@[w] == with_parent(pre.tasks@[w], root));
            }
        } else if i != ci {
            let e = pre.tasks@[i].children@[j];
            assert(post.tasks@[i].children@ == pre.tasks@[i].children@) by {
                if cur != root && kids.contains(pre.tasks@[i].pid) {
                    assert(post.tasks@[i] == with_parent(pre.tasks@[i], root));
                }
            }
            assert(post.tasks@[i].children@[j] == e);
            lemma_idx_of(pre.tasks@, e);
            let w = idx_of(pre.tasks@, e);
            assert(task_of(pre.tasks@, e).parent == Some(pre.tasks@[i].pid));
            assert(e != root) by {
                if e == root {
                    assert(task_of(pre.tasks@, root).parent is None);
                }
            }
            assert(!kids.contains(e)) by {
                if kids.contains(e) {
                    let w2 = choose|w2: int| 0 <= w2 < kids.len() && kids[w2] == e;
                    assert(task_of(pre.tasks@, e).parent == Some(cur));
                    assert(pre.tasks@[i].pid == cur);
                    assert(i == ci);
                }
            }
            if e == cur {
                assert(w == ci);
                assert(post.tasks@[ci].parent == pre.cur_task().parent);
            } else {
                assert(w != ci && (cur == root || w != ri || post.tasks@[w].parent
                    == pre.tasks@[w].parent));
            }
        }
    }
    // child lists hold no duplicates
    assert forall|i: int, j1: int, j2: int|
        0 <= i < n && 0 <= j1 < j2 < post.tasks@[i].children@.len()
        implies post.tasks@[i].children@[j1] != post.tasks@[i].children@[j2] by {
        if cur != root && i == ri {
            let old_len = pre.tasks@[ri].children@.len() as int;
            if j1 < old_len && j2 >= old_len {
                let e1 = pre.tasks@[ri].children@[j1];
                let e2 = kids[j2 - old_len];
                if e1 == e2 {
                    lemma_idx_of(pre.tasks@, e1);
                    assert(task_of(pre.tasks@, e1).parent == Some(root));
                    assert(task_of(pre.tasks@, e2).parent == Some(cur));
                }
            }
        } else if i != ci || cur == root {
            assert(post.tasks@[i].children@ == pre.tasks@[i].children@) by {
                if i != ci && cur != root && kids.contains(pre.tasks@[i].pid) {
                    assert(post.tasks@[i] == with_parent(pre.tasks@[i], root));
                }
            }
        }
    }
    // the root is still the parentless task
    assert(has_pid(post.tasks@, root) && task_of(post.tasks@, root).parent is None) by {
        assert(task_of(pre.tasks@, root).parent is None);
        assert(idx_of(post.tasks@, root) == ri);
        if cur == root {
            assert(post.tasks@[ci].parent == pre.cur_task().parent);
        } else {
            assert(post.tasks@[ri].parent == pre.tasks@[ri].parent);
        }
    }
}

/// The wait filter accepts this child: either it waits for any child
/// (filter -1) or for exactly this pid.
pub open spec fn pid_match(filter: isize, p: usize) -> bool {
    filter == -1 || (filter >= 0 && p as int == filter as int)
}

/// `children[j]` is the first child that the filter accepts and that has
/// already exited.
pub open spec fn is_first_zombie_match(
    children: Seq<usize>,
    tasks: Seq<TaskControlBlock>,
    filter: isize,
    j: int,
) -> bool {
    &&& 0 <= j < children.len()
    &&& pid_match(filter, children[j])
    &&& task_of(tasks, children[j]).task_status is Zombie
    &&& forall|l: int|
        0 <= l < j ==> !(pid_match(filter, #[trigger] children[l]) && task_of(
            tasks,
            children[l],
        ).task_status is Zombie)
}

/// Reaping a zombie child — dropping it from the parent's child list and
/// destroying its block — preserves the global invariant; every other task
/// is untouched and still found under its pid.
#[verifier::rlimit(100)]
pub proof fn lemma_reap_wf(pre: Kernel, post: Kernel, c: usize, j: int, t1: TaskControlBlock)
    requires
        pre.wf(),
        pre.has_current(),
        0 <= j < pre.cur_task().children@.len(),
        c == pre.cur_task().children@[j],
        task_of(pre.tasks@, c).task_status is Zombie,
        t1 == (TaskControlBlock { children: t1.children, ..pre.cur_task() }),
        t1.children@ == pre.cur_task().children@.remove(j),
        post.tasks@ == pre.tasks@.update(pre.cur_idx(), t1).remove(idx_of(pre.tasks@, c)),
        post.manager.ready_queue@ == pre.manager.ready_queue@,
        post.current == pre.current,
        post.next_pid == pre.next_pid,
        post.root_pid == pre.root_pid,
    ensures
        post.wf(),
        !has_pid(post.tasks@, c),
        has_pid(post.tasks@, pre.cur_pid()),
        task_of(post.tasks@, pre.cur_pid()) == t1,
        forall|p: usize|
            has_pid(pre.tasks@, p) && p != c && p != pre.cur_pid() ==> has_pid(post.tasks@, p)
                && task_of(post.tasks@, p) == task_of(pre.tasks@, p),
        forall|p: usize| has_pid(post.tasks@, p) ==> has_pid(pre.tasks@, p),
{
    let n = pre.tasks@.len() as int;
    let cur = pre.cur_pid();
    let ci = pre.cur_idx();
    let kids = pre.cur_task().children@;
    lemma_idx_of(pre.tasks@, cur);
    assert(has_pid(pre.tasks@, c));
    lemma_idx_of(pre.tasks@, c);
    let cti = idx_of(pre.tasks@, c);
    assert(task_of(pre.tasks@, c).parent == Some(cur));
    assert(c != cur) by {
        if c == cur {
            assert(pre.cur_task().parent == Some(cur));
        }
    }
    assert(cti != ci);
    let mid = pre.tasks@.update(ci, t1);
    crate::tcb::lemma_update_same_pid(pre.tasks@, ci, t1);
    assert(post.tasks@ == mid.remove(cti));
    assert(post.tasks@.len() == n - 1);
    assert forall|l: int| 0 <= l < n - 1 implies #[trigger] post.tasks@[l] == (
    if l < cti {
        mid[l]
    } else {
        mid[l + 1]
    }) by {}
    // the reaped child had no remaining references
    assert(task_of(pre.tasks@, c).children@.len() == 0) by {
        assert(task_of(pre.tasks@, c).wf());
    }
    assert forall|x: int, y: int| 0 <= x < y < n - 1 implies post.tasks@[x].pid
        != post.tasks@[y].pid by {
        let ox = if x < cti {
            x
        } else {
            x + 1
        };
        let oy = if y < cti {
            y
        } else {
            y + 1
        };
        assert(post.tasks@[x].pid == mid[ox].pid && post.tasks@[y].pid == mid[oy].pid);
        assert(mid[ox].pid == pre.tasks@[ox].pid && mid[oy].pid == pre.tasks@[oy].pid);
    }
    assert(!has_pid(post.tasks@, c)) by {
        if has_pid(post.tasks@, c) {
            let w = choose|w: int| 0 <= w < n - 1 && post.tasks@[w].pid == c;
            let ow = if w < cti {
                w
            } else {
                w + 1
            };
            assert(pre.tasks@[ow].pid == c);
            assert(ow == cti);
        }
    }
    assert forall|p: usize| has_pid(post.tasks@, p) implies has_pid(pre.tasks@, p) by {
        let w = choose|w: int| 0 <= w < n - 1 && post.tasks@[w].pid == p;
        let ow = if w < cti {
            w
        } else {
            w + 1
        };
        assert(pre.tasks@[ow].pid == p);
    }
    assert forall|p: usize| has_pid(pre.tasks@, p) && p != c implies has_pid(post.tasks@, p)
        && task_of(post.tasks@, p) == mid[idx_of(pre.tasks@, p)] by {
        lemma_idx_of(pre.tasks@, p);
        let w = idx_of(pre.tasks@, p);
        assert(w != cti);
        let w2 = if w < cti {
            w
        } else {
            w - 1
        };
        assert(post.tasks@[w2] == mid[w]);
        assert(post.tasks@[w2].pid == p);
        lemma_idx_of(post.tasks@, p);
        assert(idx_of(post.tasks@, p) == w2);
    }
    assert(task_of(post.tasks@, cur) == t1);
    assert forall|p: usize| has_pid(pre.tasks@, p) && p != c && p != cur implies task_of(
        post.tasks@,
        p,
    ) == task_of(pre.tasks@, p) by {
        lemma_idx_of(pre.tasks@, p);
    }
    // the well-formedness conjuncts
    assert forall|l: int| 0 <= l < n - 1 implies (#[trigger] post.tasks@[l]).wf() by {
        let ol = if l < cti {
            l
        } else {
            l + 1
        };
        assert(post.tasks@[l] == mid[ol]);
        assert(pre.tasks@[ol].wf());
    }
    assert forall|l: int| 0 <= l < n - 1 implies (#[trigger] post.tasks@[l]).pid
        < post.next_pid by {
        let ol = if l < cti {
            l
        } else {
            l + 1
        };
        assert(post.tasks@[l].pid == pre.tasks@[ol].pid);
    }
    assert forall|l: int|
        0 <= l < post.manager.ready_queue@.len() implies has_pid(
        post.tasks@,
        #[trigger] post.manager.ready_queue@[l],
    ) && task_of(post.tasks@, post.manager.ready_queue@[l]).task_status is Ready by {
        let e = pre.manager.ready_queue@[l];
        assert(has_pid(pre.tasks@, e) && task_of(pre.tasks@, e).task_status is Ready);
        assert(e != c);
        assert(e != cur) by {
            if e == cur {
                assert(task_of(pre.tasks@, cur).task_status is Running);
            }
        }
    }
    assert forall|l: int|
        0 <= l < post.tasks@.len() && (#[trigger] post.tasks@[l]).task_status is Running
        implies post.current == Some(post.tasks@[l].pid) by {
        let ol = if l < cti {
            l
        } else {
            l + 1
        };
        assert(post.tasks@[l] == mid[ol]);
        assert(pre.tasks@[ol].task_status == mid[ol].task_status);
        assert(pre.current == Some(pre.tasks@[ol].pid));
    }
    lemma_reap_tree_wf(pre, post, c, j, t1);
}

/// The child-list soundness part of [`lemma_reap_wf`].
#[verifier::rlimit(100)]
pub proof fn lemma_reap_tree_wf(pre: Kernel, post: Kernel, c: usize, j: int, t1: TaskControlBlock)
    requires
        pre.wf(),
        pre.has_current(),
        0 <= j < pre.cur_task().children@.len(),
        c == pre.cur_task().children@[j],
        task_of(pre.tasks@, c).task_status is Zombie,
        t1 == (TaskControlBlock { children: t1.children, ..pre.cur_task() }),
        t1.children@ == pre.cur_task().children@.remove(j),
        post.tasks@ == pre.tasks@.update(pre.cur_idx(), t1).remove(idx_of(pre.tasks@, c)),
        post.root_pid == pre.root_pid,
    ensures
        post.tree_wf(),
        post.root_wf(),
{
    let n = pre.tasks@.len() as int;
    let cur = pre.cur_pid();
    let ci = pre.cur_idx();
    let kids = pre.cur_task().children@;
    lemma_idx_of(pre.tasks@, cur);
    assert(has_pid(pre.tasks@, c));
    lemma_idx_of(pre.tasks@, c);
    let cti = idx_of(pre.tasks@, c);
    assert(task_of(pre.tasks@, c).parent == Some(cur));
    assert(c != cur) by {
        if c == cur {
            assert(pre.cur_task().parent == Some(cur));
        }
    }
    assert(cti != ci);
    let mid = pre.tasks@.update(ci, t1);
    crate::tcb::lemma_update_same_pid(pre.tasks@, ci, t1);
    assert(post.tasks@ == mid.remove(cti));
    assert forall|l: int| 0 <= l < n - 1 implies #[trigger] post.tasks@[l] == (
    if l < cti {
        mid[l]
    } else {
        mid[l + 1]
    }) by {}
    assert forall|x: int, y: int| 0 <= x < y < n - 1 implies post.tasks@[x].pid
        != post.tasks@[y].pid by {
        let ox = if x < cti {
            x
        } else {
            x + 1
        };
        let oy = if y < cti {
            y
        } else {
            y + 1
        };
        assert(post.tasks@[x].pid == mid[ox].pid && post.tasks@[y].pid == mid[oy].pid);
        assert(mid[ox].pid == pre.tasks@[ox].pid && mid[oy].pid == pre.tasks@[oy].pid);
    }
    assert forall|p: usize| has_pid(pre.tasks@, p) && p != c implies has_pid(post.tasks@, p)
        && task_of(post.tasks@, p) == mid[idx_of(pre.tasks@, p)] by {
        lemma_idx_of(pre.tasks@, p);
        let w = idx_of(pre.tasks@, p);
        assert(w != cti);
        let w2 = if w < cti {
            w
        } else {
            w - 1
        };
        assert(post.tasks@[w2] == mid[w]);
        assert(post.tasks@[w2].pid == p);
        lemma_idx_of(post.tasks@, p);
        assert(idx_of(post.tasks@, p) == w2);
    }
    assert forall|i: int, jj: int|
        0 <= i < post.tasks@.len() && 0 <= jj < post.tasks@[i].children@.len() implies has_pid(
        post.tasks@,
        #[trigger] post.tasks@[i].children@[jj],
    ) && task_of(post.tasks@, post.tasks@[i].children@[jj]).parent == Some(post.tasks@[i].pid) by {
        let oi = if i < cti {
            i
        } else {
            i + 1
        };
        assert(post.tasks@[i] == mid[oi]);
        let owner = pre.tasks@[oi];
        let e = post.tasks@[i].children@[jj];
        if oi == ci {
            assert(mid[oi] == t1);
            assert(t1.children@ == kids.remove(j));
            let oj = if jj < j {
                jj
            } else {
                jj + 1
            };
            assert(e == kids[oj]);
            assert(task_of(pre.tasks@, e).parent == Some(cur));
            assert(e != c) by {
                if e == c {
                    assert(kids[oj] == kids[j]);
                }
            }
            assert(e != cur) by {
                if e == cur {
                    assert(pre.cur_task().parent == Some(cur));
                }
            }
            assert(task_of(post.tasks@, e) == task_of(pre.tasks@, e));
            assert(post.tasks@[i].pid == cur);
        } else {
            assert(post.tasks@[i].children@ == owner.children@);
            assert(e == owner.children@[jj]);
            assert(has_pid(pre.tasks@, e) && task_of(pre.tasks@, e).parent == Some(owner.pid));
            assert(e != c) by {
                if e == c {
                    assert(task_of(pre.tasks@, c).parent == Some(owner.pid));
                    assert(owner.pid == cur);
                    assert(oi == ci);
                }
            }
            if e == cur {
                assert(task_of(post.tasks@, cur) == t1);
                assert(t1.parent == pre.cur_task().parent);
            } else {
                assert(task_of(post.tasks@, e) == task_of(pre.tasks@, e));
            }
        }
    }
    assert forall|i: int, j1: int, j2: int|
        0 <= i < post.tasks@.len() && 0 <= j1 < j2 < post.tasks@[i].children@.len()
        implies post.tasks@[i].children@[j1] != post.tasks@[i].children@[j2] by {
        let oi = if i < cti {
            i
        } else {
            i + 1
        };
        assert(post.tasks@[i] == mid[oi]);
        if oi == ci {
            let o1 = if j1 < j {
                j1
            } else {
                j1 + 1
            };
            let o2 = if j2 < j {
                j2
            } else {
                j2 + 1
            };
            assert(post.tasks@[i].children@[j1] == kids[o1]);
            assert(post.tasks@[i].children@[j2] == kids[o2]);
            assert(pre.tasks@[ci].children@[o1] != pre.tasks@[ci].children@[o2]);
        } else {
            assert(post.tasks@[i].children@ == pre.tasks@[oi].children@);
        }
    }
    assert(has_pid(post.tasks@, post.root_pid) && task_of(
        post.tasks@,
        post.root_pid,
    ).parent is None) by {
        let root = pre.root_pid;
        assert(has_pid(pre.tasks@, root) && task_of(pre.tasks@, root).parent is None);
        assert(root != c) by {
            if root == c {
                assert(task_of(pre.tasks@, c).parent == Some(cur));
            }
        }
        if root == cur {
            assert(task_of(post.tasks@, cur) == t1);
            assert(t1.parent == pre.cur_task().parent);
        } else {
            assert(task_of(post.tasks@, root) == task_of(pre.tasks@, root));
        }
    }
}

/// Reaps one exited child of the current task. `pid` selects a specific
/// child, or any child when it is -1. Returns -1 when no child at all
/// matches the filter; -2 when a matching child exists but none has exited
/// yet (the caller may retry after yielding); otherwise the first matching
/// zombie child, in child-list order, is removed from the child list and
/// destroyed, its exit status is written through `exit_code`, and its pid
/// is returned. Destroying the child is safe to do eagerly: the tree
/// invariant proves the parent's child-list entry was the last reference —
/// a zombie is never queued, never current, and never listed by any other
/// task — so the runtime ownership check a kernel would assert here can
/// never fire.
#[verifier::rlimit(100)]
pub fn sys_waitpid(k: &mut Kernel, pid: isize, exit_code: &mut i32) -> (r: isize)
    requires
        old(k).wf(),
        old(k).has_current(),
    ensures
        final(k).wf(),
        ({
            let kids = old(k).cur_task().children@;
            let tasks0 = old(k).tasks@;
            &&& ((forall|l: int| 0 <= l < kids.len() ==> !pid_match(pid, #[trigger] kids[l]))
                ==> r == -1 && *final(k) == *old(k) && *final(exit_code) == *old(exit_code))
            &&& (((exists|l: int| 0 <= l < kids.len() && pid_match(pid, #[trigger] kids[l])) && (
            forall|l: int|
                0 <= l < kids.len() && pid_match(pid, #[trigger] kids[l]) ==> !(task_of(
                    tasks0,
                    kids[l],
                ).task_status is Zombie))) ==> r == -2 && *final(k) == *old(k) && *final(exit_code)
                == *old(exit_code))
            &&& ((exists|l: int|
                0 <= l < kids.len() && pid_match(pid, #[trigger] kids[l]) && task_of(
                    tasks0,
                    kids[l],
                ).task_status is Zombie) ==> exists|j: int|
                {
                    let c = kids[j];
                    &&& #[trigger] is_first_zombie_match(kids, tasks0, pid, j)
                    &&& r == c as isize
                    &&& *final(exit_code) == task_of(tasks0, c).exit_code
                    &&& final(k).tasks@.len() == tasks0.len() - 1
                    &&& !has_pid(final(k).tasks@, c)
                    &&& has_pid(final(k).tasks@, old(k).cur_pid())
                    &&& task_of(final(k).tasks@, old(k).cur_pid()) == (TaskControlBlock {
                        children: task_of(final(k).tasks@, old(k).cur_pid()).children,
                        ..old(k).cur_task()
                    })
                    &&& task_of(final(k).tasks@, old(k).cur_pid()).children@ == kids.remove(j)
                    &&& (forall|p: usize|
                        has_pid(tasks0, p) && p != c && p != old(k).cur_pid() ==> has_pid(
                            final(k).tasks@,
                            p,
                        ) && task_of(final(k).tasks@, p) == task_of(tasks0, p))
                    &&& (forall|p: usize| has_pid(final(k).tasks@, p) ==> has_pid(tasks0, p))
                    &&& same_but_tasks(*old(k), *final(k))
                })
        }),
{
    proof {
        lemma_idx_of(old(k).tasks@, old(k).cur_pid());
    }
    let cur = match k.current {
        Some(p) => p,
        None => 0,
    };
    let ci = find_index(&k.tasks, cur).unwrap();
    let ghost kids = old(k).cur_task().children@;
    let n = k.tasks[ci].children.len();
    let mut anym: bool = false;
    let mut i: usize = 0;
    while i < n
        invariant
            *k == *old(k),
            old(k).wf(),
            old(k).has_current(),
            ci == old(k).cur_idx(),
            ci < k.tasks@.len(),
            kids == k.tasks@[ci as int].children@,
            n == kids.len(),
            i <= n,
            anym == exists|l: int| 0 <= l < i && pid_match(pid, #[trigger] kids[l]),
        decreases n - i,
    {
        let c = k.tasks[ci].children[i];
        if pid == -1 || (pid >= 0 && c == pid as usize) {
            anym = true;
            proof {
                assert(pid_match(pid, kids[i as int]));
            }
        }
        i += 1;
    }
    if !anym {
        return -1;
    }
    let mut found: bool = false;
    let mut j: usize = 0;
    let mut i2: usize = 0;
    while i2 < n
        invariant
            *k == *old(k),
            old(k).wf(),
            old(k).has_current(),
            ci == old(k).cur_idx(),
            ci < k.tasks@.len(),
            kids == k.tasks@[ci as int].children@,
            n == kids.len(),
            i2 <= n,
            !found ==> forall|l: int|
                0 <= l < i2 ==> !(pid_match(pid, #[trigger] kids[l]) && task_of(
                    old(k).tasks@,
                    kids[l],
                ).task_status is Zombie),
            found ==> is_first_zombie_match(kids, old(k).tasks@, pid, j as int),
            found ==> j < n,
        decreases n - i2,
    {
        if !found {
            let c = k.tasks[ci].children[i2];
            if pid == -1 || (pid >= 0 && c == pid as usize) {
                proof {
                    assert(has_pid(old(k).tasks@, c)) by {
                        assert(old(k).tasks@[ci as int].children@[i2 as int] == c);
                    }
                }
                let ti = find_index(&k.tasks, c).unwrap();
                if k.tasks[ti].task_status == TaskStatus::Zombie {
                    found = true;
                    j = i2;
                }
            }
        }
        i2 += 1;
    }
    if !found {
        return -2;
    }
    let c = k.tasks[ci].children.remove(j);
    let ghost t1 = k.tasks@[ci as int];
    proof {
        assert(has_pid(old(k).tasks@, c)) by {
            assert(old(k).tasks@[ci as int].children@[j as int] == c);
        }
        lemma_idx_of(old(k).tasks@, c);
        assert(k.tasks@ =~= old(k).tasks@.update(ci as int, t1));
        crate::tcb::lemma_update_same_pid(old(k).tasks@, ci as int, t1);
        assert(c != cur) by {
            if c == cur {
                assert(task_of(old(k).tasks@, c).parent == Some(cur));
            }
        }
    }
    let cti = find_index(&k.tasks, c).unwrap();
    let code = k.tasks[cti].exit_code;
    *exit_code = code;
    let _ = k.tasks.remove(cti);
    proof {
        lemma_reap_wf(*old(k), *k, c, j as int, t1);
        assert(is_first_zombie_match(kids, old(k).tasks@, pid, j as int));
    }
    c as isize
}

/// True when the file-system table holds an image at `path`.
fn find_program(programs: &Vec<String>, path: &String) -> (r: bool)
    ensures
        r == has_program(programs@, path@),
{
    let mut i: usize = 0;
    while i < programs.len()
        invariant
            i <= programs@.len(),
            forall|l: int| 0 <= l < i ==> programs@[l]@ != path@,
        decreases programs@.len() - i,
    {
        if programs[i] == *path {
            return true;
        }
        i += 1;
    }
    false
}

/// Forks the current task: the child gets a fresh pid, a full copy of the
/// parent's address space and inherited priority, is recorded as the
/// parent's youngest child, and joins the ready queue. The child's saved
/// return-value register is forced to 0, so the child observes `fork`
/// returning 0 while the parent receives the child's pid.
pub fn sys_fork(k: &mut Kernel) -> (r: isize)
    requires
        old(k).wf(),
        old(k).has_current(),
        old(k).next_pid < MAX_PID,
    ensures
        final(k).wf(),
        r == old(k).next_pid as isize,
        final(k).next_pid == old(k).next_pid + 1,
        final(k).current == old(k).current,
        final(k).root_pid == old(k).root_pid,
        final(k).programs@ == old(k).programs@,
        final(k).manager.ready_queue@ == old(k).manager.ready_queue@.push(old(k).next_pid),
        final(k).tasks@.len() == old(k).tasks@.len() + 1,
        forall|l: int|
            0 <= l < old(k).tasks@.len() && l != old(k).cur_idx() ==> final(k).tasks@[l] == old(
                k,
            ).tasks@[l],
        final(k).tasks@[old(k).cur_idx()] == (TaskControlBlock {
            children: final(k).tasks@[old(k).cur_idx()].children,
            ..old(k).cur_task()
        }),
        final(k).tasks@[old(k).cur_idx()].children@ == old(k).cur_task().children@.push(
            old(k).next_pid,
        ),
        fresh_child(
            final(k).tasks@[old(k).tasks@.len() as int],
            old(k).next_pid,
            old(k).cur_pid(),
            old(k).cur_task().priority,
        ),
        final(k).tasks@[old(k).tasks@.len() as int].memory_set.areas@ == old(
            k,
        ).cur_task().memory_set.areas@,
        final(k).tasks@[old(k).tasks@.len() as int].memory_set.heap_bottom == old(
            k,
        ).cur_task().memory_set.heap_bottom,
        final(k).tasks@[old(k).tasks@.len() as int].memory_set.program_brk == old(
            k,
        ).cur_task().memory_set.program_brk,
{
    proof {
        lemma_idx_of(old(k).tasks@, old(k).cur_pid());
    }
    let cur = match k.current {
        Some(p) => p,
        None => 0,
    };
    let ci = find_index(&k.tasks, cur).unwrap();
    let pid = k.next_pid;
    let space = k.tasks[ci].memory_set.duplicate();
    let prio = k.tasks[ci].priority;
    let child = new_tcb(pid, Some(cur), prio, space);
    k.tasks[ci].children.push(pid);
    k.tasks.push(child);
    k.manager.add(pid);
    k.next_pid = pid + 1;
    proof {
        lemma_new_child_wf(*old(k), *k, k.tasks@[old(k).tasks@.len() as int]);
    }
    pid as isize
}

/// Spawns a new task directly from the program image at `path`: unlike
/// `fork` followed by `exec`, nothing of the caller's address space is
/// copied. The child gets a fresh pid, an empty address space, the default
/// priority, is recorded as the caller's child, and joins the ready queue.
/// Returns the child's pid, or -1 — with no new task and the ready queue
/// unchanged — when no image exists at `path`.
pub fn sys_spawn(k: &mut Kernel, path: &String) -> (r: isize)
    requires
        old(k).wf(),
        old(k).has_current(),
        old(k).next_pid < MAX_PID,
    ensures
        final(k).wf(),
        !has_program(old(k).programs@, path@) ==> r == -1 && *final(k) == *old(k),
        has_program(old(k).programs@, path@) ==> {
            &&& r == old(k).next_pid as isize
            &&& final(k).next_pid == old(k).next_pid + 1
            &&& final(k).current == old(k).current
            &&& final(k).root_pid == old(k).root_pid
            &&& final(k).programs@ == old(k).programs@
            &&& final(k).manager.ready_queue@ == old(k).manager.ready_queue@.push(old(k).next_pid)
            &&& final(k).tasks@.len() == old(k).tasks@.len() + 1
            &&& forall|l: int|
                0 <= l < old(k).tasks@.len() && l != old(k).cur_idx() ==> final(k).tasks@[l]
                    == old(k).tasks@[l]
            &&& final(k).tasks@[old(k).cur_idx()] == (TaskControlBlock {
                children: final(k).tasks@[old(k).cur_idx()].children,
                ..old(k).cur_task()
            })
            &&& final(k).tasks@[old(k).cur_idx()].children@ == old(k).cur_task().children@.push(
                old(k).next_pid,
            )
            &&& fresh_child(
                final(k).tasks@[old(k).tasks@.len() as int],
                old(k).next_pid,
                old(k).cur_pid(),
                crate::DEFAULT_PRIORITY,
            )
            &&& final(k).tasks@[old(k).tasks@.len() as int].memory_set.areas@.len() == 0
        },
{
    if !find_program(&k.programs, path) {
        return -1;
    }
    proof {
        lemma_idx_of(old(k).tasks@, old(k).cur_pid());
    }
    let cur = match k.current {
        Some(p) => p,
        None => 0,
    };
    let ci = find_index(&k.tasks, cur).unwrap();
    let pid = k.next_pid;
    let child = new_tcb(pid, Some(cur), crate::DEFAULT_PRIORITY, AddressSpace::new());
    k.tasks[ci].children.push(pid);
    k.tasks.push(child);
    k.manager.add(pid);
    k.next_pid = pid + 1;
    proof {
        lemma_new_child_wf(*old(k), *k, k.tasks@[old(k).tasks@.len() as int]);
    }
    pid as isize
}

/// Replaces the current task's program in place: its address space and
/// saved user context restart from the image at `path`, while its pid,
/// process-tree links, priority and accounting stay. Returns 0, or -1 —
/// with the task left unchanged — when no image exists at `path`.
pub fn sys_exec(k: &mut Kernel, path: &String) -> (r: isize)
    requires
        old(k).wf(),
        old(k).has_current(),
    ensures
        final(k).wf(),
        !has_program(old(k).programs@, path@) ==> r == -1 && *final(k) == *old(k),
        has_program(old(k).programs@, path@) ==> {
            &&& r == 0
            &&& final(k).tasks@ == old(k).tasks@.update(
                old(k).cur_idx(),
                (TaskControlBlock {
                    memory_set: final(k).tasks@[old(k).cur_idx()].memory_set,
                    trap_cx: (TrapContext { x10: 0 }),
                    ..old(k).cur_task()
                }),
            )
            &&& final(k).tasks@[old(k).cur_idx()].memory_set.areas@.len() == 0
            &&& final(k).tasks@[old(k).cur_idx()].memory_set.heap_bottom == 0
            &&& final(k).tasks@[old(k).cur_idx()].memory_set.program_brk == 0
            &&& same_but_tasks(*old(k), *final(k))
        },
{
    if !find_program(&k.programs, path) {
        return -1;
    }
    proof {
        lemma_idx_of(old(k).tasks@, old(k).cur_pid());
    }
    let cur = match k.current {
        Some(p) => p,
        None => 0,
    };
    let ci = find_index(&k.tasks, cur).unwrap();
    k.tasks[ci].memory_set = AddressSpace::new();
    k.tasks[ci].trap_cx = TrapContext { x10: 0 };
    proof {
        let t1 = k.tasks@[old(k).cur_idx()];
        assert(k.tasks@ =~= old(k).tasks@.update(old(k).cur_idx(), t1));
        lemma_plain_update_wf(*old(k), *k, t1);
    }
    0
}

/// Reads the timer and decomposes the microsecond count into whole seconds
/// and leftover microseconds, written through the caller's record.
pub fn sys_get_time(k: &Kernel, ts: &mut TimeVal, now_us: usize) -> (r: isize)
    requires
        k.wf(),
        k.has_current(),
    ensures
        r == 0,
        final(ts).sec == now_us / 1_000_000,
        final(ts).usec == now_us % 1_000_000,
{
    ts.sec = now_us / 1_000_000;
    ts.usec = now_us % 1_000_000;
    0
}

/// Reports the current task's status, its syscall counters, and how many
/// milliseconds have passed since it was first dispatched.
pub fn sys_task_info(k: &Kernel, ti: &mut TaskInfo, now_ms: usize) -> (r: isize)
    requires
        k.wf(),
        k.has_current(),
    ensures
        r == 0,
        final(ti).status is Running,
        final(ti).syscall_times@ == k.cur_task().syscall_times@,
        final(ti).time == ({
            let first = k.cur_task().first_execute_time.unwrap();
            if now_ms >= first {
                now_ms - first
            } else {
                0
            }
        }),
{
    proof {
        lemma_idx_of(k.tasks@, k.cur_pid());
    }
    let pid = match k.current {
        Some(p) => p,
        None => 0,
    };
    let idx = find_index(&k.tasks, pid).unwrap();
    ti.status = TaskStatus::Running;
    ti.syscall_times = crate::tcb::copy_syscall_times(&k.tasks[idx].syscall_times);
    let first = match k.tasks[idx].first_execute_time {
        Some(f) => f,
        None => 0,
    };
    ti.time = if now_ms >= first {
        now_ms - first
    } else {
        0
    };
    0
}

} // verus!
