//! Task control blocks: the kernel's descriptor for one process, holding its
//! identity, life-cycle status, address space, process-tree links,
//! scheduling fields, and accounting state.
//!
//! Tasks refer to each other by pid; the [`crate::kernel::Kernel`] arena owns
//! every live block and is the only place a block is created or destroyed.

use crate::mem::AddressSpace;
use crate::MAX_PID;
use crate::MAX_SYSCALL_NUM;
use vstd::prelude::*;

verus! {

/// The life-cycle stage of a task. A task moves Ready -> Running ->
/// {Ready, Zombie}; Zombie is terminal and ends only when the parent reaps
/// the task.
#[derive(Clone, Copy, PartialEq, Eq, Structural, Debug)]
pub enum TaskStatus {
    Ready,
    Running,
    Zombie,
}

/// The saved user-mode register that carries a syscall's return value into
/// the task (register x10/a0); the rest of the save-area is owned by the
/// context-switch layer and never read by this core.
#[derive(Clone, Copy, PartialEq, Eq, Structural, Debug)]
pub struct TrapContext {
    pub x10: usize,
}

/// One task's descriptor.
pub struct TaskControlBlock {
    /// Unique identity, never reused while the block survives.
    pub pid: usize,
    /// Life-cycle stage.
    pub task_status: TaskStatus,
    /// The task's exclusively owned address space.
    pub memory_set: AddressSpace,
    /// Pid of the parent task, or none for the root task.
    pub parent: Option<usize>,
    /// Pids of the children, in creation order; an entry leaves exactly
    /// once, when the parent reaps that child.
    pub children: Vec<usize>,
    /// Exit status, meaningful once the task is a Zombie.
    pub exit_code: i32,
    /// Scheduling weight, always at least 2.
    pub priority: usize,
    /// Stride accumulator; never decreases across dispatches.
    pub stride: usize,
    /// Per-syscall invocation counters, one slot per syscall number.
    pub syscall_times: Vec<u32>,
    /// Millisecond timestamp of the first dispatch, once dispatched.
    pub first_execute_time: Option<usize>,
    /// Saved user-mode return-value register.
    pub trap_cx: TrapContext,
}

impl TaskControlBlock {
    /// Well-formedness of a single block: the pid is representable as a
    /// syscall result, the priority is a valid scheduling weight, the
    /// counter table has its fixed size, the address space is well formed,
    /// no task is its own parent, a running task has been dispatched, and a
    /// zombie that still has a parent has already given its children away.
    pub open spec fn wf(self) -> bool {
        &&& self.pid <= MAX_PID
        &&& 2 <= self.priority
        &&& self.syscall_times@.len() == MAX_SYSCALL_NUM
        &&& self.memory_set.wf()
        &&& (self.parent matches Some(p) ==> p != self.pid)
        &&& (self.task_status is Running ==> self.first_execute_time is Some)
        &&& (self.task_status is Zombie && self.parent is Some ==> self.children@.len() == 0)
    }
}

/// No two blocks in the arena carry the same pid.
pub open spec fn pids_unique(tasks: Seq<TaskControlBlock>) -> bool {
    forall|i: int, j: int|
        0 <= i < j < tasks.len() ==> tasks[i].pid != tasks[j].pid
}

/// Some block in the arena carries this pid.
pub open spec fn has_pid(tasks: Seq<TaskControlBlock>, pid: usize) -> bool {
    exists|i: int| 0 <= i < tasks.len() && tasks[i].pid == pid
}

/// Position of the block with this pid; meaningful under `has_pid` and
/// unambiguous under `pids_unique`.
pub open spec fn idx_of(tasks: Seq<TaskControlBlock>, pid: usize) -> int {
    choose|i: int| 0 <= i < tasks.len() && tasks[i].pid == pid
}

/// The block with this pid.
pub open spec fn task_of(tasks: Seq<TaskControlBlock>, pid: usize) -> TaskControlBlock {
    tasks[idx_of(tasks, pid)]
}

/// Under unique pids, `idx_of` is the one position holding the pid.
pub proof fn lemma_idx_of(tasks: Seq<TaskControlBlock>, pid: usize)
    requires
        pids_unique(tasks),
        has_pid(tasks, pid),
    ensures
        0 <= idx_of(tasks, pid) < tasks.len(),
        tasks[idx_of(tasks, pid)].pid == pid,
        forall|i: int| 0 <= i < tasks.len() && tasks[i].pid == pid ==> i == idx_of(tasks, pid),
{
    let w = idx_of(tasks, pid);
    assert(0 <= w < tasks.len() && tasks[w].pid == pid);
}

/// Replacing one block with a block of the same pid moves no pid: lookups
/// of every other pid are untouched, and the replaced pid now resolves to
/// the new block.
pub proof fn lemma_update_same_pid(tasks: Seq<TaskControlBlock>, i: int, t: TaskControlBlock)
    requires
        pids_unique(tasks),
        0 <= i < tasks.len(),
        t.pid == tasks[i].pid,
    ensures
        pids_unique(tasks.update(i, t)),
        forall|p: usize| has_pid(tasks.update(i, t), p) <==> has_pid(tasks, p),
        forall|p: usize|
            has_pid(tasks, p) ==> idx_of(tasks.update(i, t), p) == idx_of(tasks, p),
        forall|p: usize|
            has_pid(tasks, p) && p != t.pid ==> task_of(tasks.update(i, t), p) == task_of(
                tasks,
                p,
            ),
        has_pid(tasks, t.pid),
        idx_of(tasks, t.pid) == i,
        task_of(tasks.update(i, t), t.pid) == t,
    {
    let u = tasks.update(i, t);
    assert(tasks[i].pid == t.pid);
    lemma_idx_of(tasks, t.pid);
    assert forall|x: int, y: int| 0 <= x < y < u.len() implies u[x].pid != u[y].pid by {
        assert(u[x].pid == tasks[x].pid && u[y].pid == tasks[y].pid);
    }
    assert forall|p: usize| has_pid(u, p) implies has_pid(tasks, p) by {
        let w = choose|w: int| 0 <= w < u.len() && u[w].pid == p;
        assert(tasks[w].pid == p || tasks[i].pid == p);
    }
    assert forall|p: usize| has_pid(tasks, p) implies has_pid(u, p) by {
        let w = choose|w: int| 0 <= w < tasks.len() && tasks[w].pid == p;
        if w == i {
            assert(u[i].pid == p);
        } else {
            assert(u[w].pid == p);
        }
    }
    assert forall|p: usize| has_pid(tasks, p) implies idx_of(u, p) == idx_of(tasks, p) by {
        lemma_idx_of(tasks, p);
        lemma_idx_of(u, p);
        let wu = idx_of(u, p);
        assert(tasks[wu].pid == p || wu == i);
    }
}

/// Appending a block with a brand-new pid while replacing one block in
/// place (keeping its pid) preserves pid uniqueness, keeps every old pid
/// resolvable at its old position, and makes the two touched pids resolve
/// to their new blocks.
pub proof fn lemma_push_new_pid(
    tasks: Seq<TaskControlBlock>,
    tasks2: Seq<TaskControlBlock>,
    ci: int,
    t1: TaskControlBlock,
    c: TaskControlBlock,
)
    requires
        pids_unique(tasks),
        0 <= ci < tasks.len(),
        t1.pid == tasks[ci].pid,
        forall|l: int| 0 <= l < tasks.len() ==> tasks[l].pid != c.pid,
        tasks2.len() == tasks.len() + 1,
        tasks2[ci] == t1,
        tasks2[tasks.len() as int] == c,
        forall|l: int| 0 <= l < tasks.len() && l != ci ==> tasks2[l] == tasks[l],
    ensures
        pids_unique(tasks2),
        forall|p: usize| has_pid(tasks, p) ==> has_pid(tasks2, p),
        has_pid(tasks2, c.pid),
        forall|p: usize| has_pid(tasks2, p) ==> has_pid(tasks, p) || p == c.pid,
        forall|p: usize|
            has_pid(tasks, p) && p != t1.pid && p != c.pid ==> task_of(tasks2, p) == task_of(
                tasks,
                p,
            ),
        task_of(tasks2, t1.pid) == t1,
        task_of(tasks2, c.pid) == c,
{
    let n = tasks.len() as int;
    assert forall|x: int, y: int| 0 <= x < y < tasks2.len() implies tasks2[x].pid
        != tasks2[y].pid by {
        if y < n {
            assert(tasks2[x].pid == tasks[x].pid && tasks2[y].pid == tasks[y].pid);
        } else {
            assert(tasks2[x].pid == tasks[x].pid && tasks2[y].pid == c.pid);
        }
    }
    assert forall|p: usize| has_pid(tasks, p) implies has_pid(tasks2, p) by {
        let w = choose|w: int| 0 <= w < n && tasks[w].pid == p;
        assert(tasks2[w].pid == p);
    }
    assert(tasks2[n].pid == c.pid);
    assert forall|p: usize| has_pid(tasks2, p) implies has_pid(tasks, p) || p == c.pid by {
        let w = choose|w: int| 0 <= w < tasks2.len() && tasks2[w].pid == p;
        if w < n {
            assert(tasks[w].pid == p);
        }
    }
    assert forall|p: usize|
        has_pid(tasks, p) && p != t1.pid && p != c.pid implies task_of(tasks2, p) == task_of(
        tasks,
        p,
    ) by {
        lemma_idx_of(tasks, p);
        let w = idx_of(tasks, p);
        assert(tasks2[w].pid == p);
        lemma_idx_of(tasks2, p);
        assert(idx_of(tasks2, p) == w);
    }
    assert(tasks2[ci].pid == t1.pid);
    lemma_idx_of(tasks2, t1.pid);
    assert(task_of(tasks2, t1.pid) == t1);
    lemma_idx_of(tasks2, c.pid);
    assert(task_of(tasks2, c.pid) == c);
}

/// Finds the arena position of the block with this pid, if any.
pub fn find_index(tasks: &Vec<TaskControlBlock>, pid: usize) -> (r: Option<usize>)
    requires
        pids_unique(tasks@),
    ensures
        r is Some <==> has_pid(tasks@, pid),
        r matches Some(i) ==> i == idx_of(tasks@, pid) && i < tasks@.len() && tasks@[i as int].pid
            == pid,
{
    let mut i: usize = 0;
    while i < tasks.len()
        invariant
            pids_unique(tasks@),
            i <= tasks@.len(),
            forall|l: int| 0 <= l < i ==> tasks@[l].pid != pid,
        decreases tasks@.len() - i,
    {
        if tasks[i].pid == pid {
            proof {
                lemma_idx_of(tasks@, pid);
            }
            return Some(i);
        }
        i += 1;
    }
    None
}

/// A fresh, zeroed syscall-counter table.
pub fn new_syscall_times() -> (r: Vec<u32>)
    ensures
        r@.len() == MAX_SYSCALL_NUM,
        forall|i: int| 0 <= i < r@.len() ==> r@[i] == 0,
{
    let mut r: Vec<u32> = Vec::new();
    let mut i: usize = 0;
    while i < MAX_SYSCALL_NUM
        invariant
            i <= MAX_SYSCALL_NUM,
            r@.len() == i,
            forall|l: int| 0 <= l < r@.len() ==> r@[l] == 0,
        decreases MAX_SYSCALL_NUM - i,
    {
        r.push(0);
        i += 1;
    }
    r
}

/// An exact copy of a syscall-counter table, as reported to `task_info`.
pub fn copy_syscall_times(t: &Vec<u32>) -> (r: Vec<u32>)
    ensures
        r@ == t@,
{
    let mut r: Vec<u32> = Vec::new();
    let mut i: usize = 0;
    while i < t.len()
        invariant
            i <= t@.len(),
            r@ == t@.subrange(0, i as int),
        decreases t@.len() - i,
    {
        r.push(t[i]);
        i += 1;
        proof {
            assert(r@ =~= t@.subrange(0, i as int));
        }
    }
    proof {
        assert(r@ =~= t@);
    }
    r
}

/// Builds a fresh Ready task: zero stride, zeroed counters, no children,
/// exit code 0, never dispatched, and return-value register cleared.
pub fn new_tcb(pid: usize, parent: Option<usize>, priority: usize, memory_set: AddressSpace) -> (r:
    TaskControlBlock)
    requires
        pid <= MAX_PID,
        2 <= priority,
        memory_set.wf(),
        parent matches Some(p) ==> p != pid,
    ensures
        r.wf(),
        r.pid == pid,
        r.task_status is Ready,
        r.memory_set == memory_set,
        r.parent == parent,
        r.children@ == Seq::<usize>::empty(),
        r.exit_code == 0,
        r.priority == priority,
        r.stride == 0,
        forall|i: int| 0 <= i < r.syscall_times@.len() ==> r.syscall_times@[i] == 0,
        r.first_execute_time is None,
        r.trap_cx.x10 == 0,
{
    let r = TaskControlBlock {
        pid,
        task_status: TaskStatus::Ready,
        memory_set,
        parent,
        children: Vec::new(),
        exit_code: 0,
        priority,
        stride: 0,
        syscall_times: new_syscall_times(),
        first_execute_time: None,
        trap_cx: TrapContext { x10: 0 },
    };
    proof {
        assert(r.children@ =~= Seq::<usize>::empty());
    }
    r
}

} // verus!
