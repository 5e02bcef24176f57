//! The kernel's process-wide state: the arena of live task control blocks
//! keyed by pid, the ready queue, the currently running task, the pid
//! allocator, and the table of loadable program images.
//!
//! [`Kernel::wf`] is the global invariant every entry point preserves: pids
//! are unique and below the allocator's watermark, queued tasks are alive
//! and Ready, exactly the current task is Running, parent and child links
//! agree in both directions, and the root task is the one task without a
//! parent.

use crate::manager::charged;
use crate::manager::is_first_min;
use crate::manager::TaskManager;
use crate::mem::AddressSpace;
use crate::tcb::find_index;
use crate::tcb::has_pid;
use crate::tcb::idx_of;
use crate::tcb::lemma_idx_of;
use crate::tcb::lemma_update_same_pid;
use crate::tcb::new_tcb;
use crate::tcb::pids_unique;
use crate::tcb::task_of;
use crate::tcb::TaskControlBlock;
use crate::tcb::TaskStatus;
use crate::DEFAULT_PRIORITY;
use crate::MAX_PID;
use crate::MAX_SYSCALL_NUM;
use vstd::prelude::*;

verus! {

/// All process-wide kernel state.
pub struct Kernel {
    /// Every live task control block, including zombies awaiting reaping.
    pub tasks: Vec<TaskControlBlock>,
    /// The scheduler's ready queue.
    pub manager: TaskManager,
    /// Pid of the task the CPU is running on behalf of, if any.
    pub current: Option<usize>,
    /// Next pid to hand out; pids are never reused.
    pub next_pid: usize,
    /// Pid of the root task, meaningful once any task exists.
    pub root_pid: usize,
    /// Paths of the program images the file system can load.
    pub programs: Vec<String>,
}

/// The image at `path` is loadable.
pub open spec fn has_program(programs: Seq<String>, path: Seq<char>) -> bool {
    exists|i: int| 0 <= i < programs.len() && programs[i]@ == path
}

impl Kernel {
    /// Every queued pid names a live Ready task, and no pid is queued twice.
    pub open spec fn queue_wf(self) -> bool {
        &&& forall|i: int|
            0 <= i < self.manager.ready_queue@.len() ==> has_pid(
                self.tasks@,
                #[trigger] self.manager.ready_queue@[i],
            ) && task_of(self.tasks@, self.manager.ready_queue@[i]).task_status is Ready
        &&& forall|i: int, j: int|
            0 <= i < j < self.manager.ready_queue@.len() ==> self.manager.ready_queue@[i]
                != self.manager.ready_queue@[j]
    }

    /// The current task, when there is one, is a live Running task, and a
    /// task is Running exactly when it is the current one.
    pub open spec fn current_wf(self) -> bool {
        &&& (self.current matches Some(c) ==> has_pid(self.tasks@, c) && task_of(
            self.tasks@,
            c,
        ).task_status is Running)
        &&& forall|i: int|
            0 <= i < self.tasks@.len() && (#[trigger] self.tasks@[i]).task_status is Running
                ==> self.current == Some(self.tasks@[i].pid)
    }

    /// Child lists are sound: every child entry names a live task whose
    /// parent link points back, and no child is listed twice. Parent links
    /// themselves may go stale, as a weak reference would, once the parent
    /// has been torn down.
    pub open spec fn tree_wf(self) -> bool {
        &&& forall|i: int, j: int|
            0 <= i < self.tasks@.len() && 0 <= j < self.tasks@[i].children@.len() ==> has_pid(
                self.tasks@,
                #[trigger] self.tasks@[i].children@[j],
            ) && task_of(self.tasks@, self.tasks@[i].children@[j]).parent == Some(
                self.tasks@[i].pid,
            )
        &&& forall|i: int, j1: int, j2: int|
            0 <= i < self.tasks@.len() && 0 <= j1 < j2 < self.tasks@[i].children@.len()
                ==> self.tasks@[i].children@[j1] != self.tasks@[i].children@[j2]
    }

    /// Once any task exists, the root task is live and has no parent.
    pub open spec fn root_wf(self) -> bool {
        self.tasks@.len() > 0 ==> has_pid(self.tasks@, self.root_pid) && task_of(
            self.tasks@,
            self.root_pid,
        ).parent is None
    }

    /// The global invariant.
    pub open spec fn wf(self) -> bool {
        &&& pids_unique(self.tasks@)
        &&& forall|i: int| 0 <= i < self.tasks@.len() ==> (#[trigger] self.tasks@[i]).wf()
        &&& forall|i: int|
            0 <= i < self.tasks@.len() ==> (#[trigger] self.tasks@[i]).pid < self.next_pid
        &&& self.next_pid <= MAX_PID
        &&& self.queue_wf()
        &&& self.current_wf()
        &&& self.tree_wf()
        &&& self.root_wf()
    }

    /// There is a current task.
    pub open spec fn has_current(self) -> bool {
        self.current is Some
    }

    /// Pid of the current task.
    pub open spec fn cur_pid(self) -> usize {
        self.current.unwrap()
    }

    /// Arena position of the current task.
    pub open spec fn cur_idx(self) -> int {
        idx_of(self.tasks@, self.cur_pid())
    }

    /// The current task's block.
    pub open spec fn cur_task(self) -> TaskControlBlock {
        task_of(self.tasks@, self.cur_pid())
    }

    /// A kernel with no tasks, no programs, and an empty ready queue.
    pub fn new() -> (r: Kernel)
        ensures
            r.wf(),
            r.tasks@ == Seq::<TaskControlBlock>::empty(),
            r.manager.ready_queue@ == Seq::<usize>::empty(),
            r.current is None,
            r.next_pid == 0,
            r.programs@ == Seq::<String>::empty(),
    {
        let r = Kernel {
            tasks: Vec::new(),
            manager: TaskManager::new(),
            current: None,
            next_pid: 0,
            root_pid: 0,
            programs: Vec::new(),
        };
        proof {
            assert(r.tasks@ =~= Seq::<TaskControlBlock>::empty());
            assert(r.programs@ =~= Seq::<String>::empty());
        }
        r
    }

    /// Registers a loadable program image with the file-system table.
    pub fn register_program(&mut self, path: String)
        requires
            old(self).wf(),
        ensures
            final(self).wf(),
            final(self).programs@ == old(self).programs@.push(path),
            final(self).tasks@ == old(self).tasks@,
            final(self).manager.ready_queue@ == old(self).manager.ready_queue@,
            final(self).current == old(self).current,
            final(self).next_pid == old(self).next_pid,
            final(self).root_pid == old(self).root_pid,
    {
        self.programs.push(path);
    }

    /// Boots the process tree: builds the root task with a fresh address
    /// space, the default priority, zero stride and no parent, and enqueues
    /// it. Returns the root's pid.
    pub fn create_root(&mut self) -> (pid: usize)
        requires
            old(self).wf(),
            old(self).tasks@.len() == 0,
            old(self).next_pid < MAX_PID,
        ensures
            final(self).wf(),
            pid == old(self).next_pid,
            final(self).next_pid == old(self).next_pid + 1,
            final(self).root_pid == pid,
            final(self).current is None,
            final(self).tasks@.len() == 1,
            final(self).tasks@[0].pid == pid,
            final(self).tasks@[0].task_status is Ready,
            final(self).tasks@[0].parent is None,
            final(self).tasks@[0].children@.len() == 0,
            final(self).tasks@[0].priority == DEFAULT_PRIORITY,
            final(self).tasks@[0].stride == 0,
            final(self).manager.ready_queue@ == seq![pid],
            final(self).programs@ == old(self).programs@,
    {
        let pid = self.next_pid;
        let t = new_tcb(pid, None, DEFAULT_PRIORITY, AddressSpace::new());
        self.tasks.push(t);
        self.manager.add(pid);
        self.root_pid = pid;
        self.next_pid = pid + 1;
        proof {
            assert(old(self).manager.ready_queue@.len() == 0) by {
                if old(self).manager.ready_queue@.len() > 0 {
                    assert(has_pid(old(self).tasks@, old(self).manager.ready_queue@[0]));
                }
            }
            assert(self.manager.ready_queue@ =~= seq![pid]);
            assert(has_pid(self.tasks@, pid)) by {
                assert(self.tasks@[0].pid == pid);
            }
            lemma_idx_of(self.tasks@, pid);
        }
        pid
    }

    /// Adds a Ready task that is not yet queued to the back of the ready
    /// queue.
    pub fn add_task(&mut self, pid: usize)
        requires
            old(self).wf(),
            has_pid(old(self).tasks@, pid),
            task_of(old(self).tasks@, pid).task_status is Ready,
            forall|i: int|
                0 <= i < old(self).manager.ready_queue@.len() ==> old(
                    self,
                ).manager.ready_queue@[i] != pid,
        ensures
            final(self).wf(),
            final(self).manager.ready_queue@ == old(self).manager.ready_queue@.push(pid),
            final(self).tasks@ == old(self).tasks@,
            final(self).current == old(self).current,
            final(self).next_pid == old(self).next_pid,
            final(self).root_pid == old(self).root_pid,
            final(self).programs@ == old(self).programs@,
    {
        self.manager.add(pid);
    }

    /// The dispatch step: takes the first least-stride Ready task from the
    /// queue, charges its stride one pass of `BIG_STRIDE / priority`, marks
    /// it Running, makes it current, and stamps its first dispatch time.
    /// Returns none, with nothing changed, when the queue is empty.
    #[verifier::rlimit(60)]
    pub fn fetch_task(&mut self, now_ms: usize) -> (r: Option<usize>)
        requires
            old(self).wf(),
            old(self).current is None,
        ensures
            final(self).wf(),
            r is None <==> old(self).manager.ready_queue@.len() == 0,
            r is None ==> *final(self) == *old(self),
            r matches Some(pid) ==> {
                &&& has_pid(old(self).tasks@, pid)
                &&& final(self).current == Some(pid)
                &&& final(self).tasks@ == old(self).tasks@.update(
                    idx_of(old(self).tasks@, pid),
                    dispatched(task_of(old(self).tasks@, pid), now_ms),
                )
                &&& final(self).next_pid == old(self).next_pid
                &&& final(self).root_pid == old(self).root_pid
                &&& final(self).programs@ == old(self).programs@
                &&& exists|j: int|
                    is_first_min(old(self).manager.ready_queue@, old(self).tasks@, j) && pid
                        == old(self).manager.ready_queue@[j] && final(self).manager.ready_queue@
                        == old(self).manager.ready_queue@.remove(j)
            },
    {
        let picked = self.manager.fetch(&mut self.tasks);
        match picked {
            None => None,
            Some(pid) => {
                proof {
                    lemma_idx_of(old(self).tasks@, pid);
                    lemma_update_same_pid(
                        old(self).tasks@,
                        idx_of(old(self).tasks@, pid),
                        charged(task_of(old(self).tasks@, pid)),
                    );
                }
                let ti = find_index(&self.tasks, pid).unwrap();
                self.tasks[ti].task_status = TaskStatus::Running;
                if self.tasks[ti].first_execute_time.is_none() {
                    self.tasks[ti].first_execute_time = Some(now_ms);
                }
                self.current = Some(pid);
                proof {
                    let t0 = task_of(old(self).tasks@, pid);
                    let i = idx_of(old(self).tasks@, pid);
                    assert(self.tasks@ =~= old(self).tasks@.update(i, dispatched(t0, now_ms)));
                    lemma_update_same_pid(old(self).tasks@, i, dispatched(t0, now_ms));
                    assert(self.wf()) by {
                        lemma_fetch_wf(*old(self), *self, pid, now_ms);
                    }
                }
                Some(pid)
            },
        }
    }

    /// The syscall-entry accounting hook: bumps the current task's counter
    /// for this syscall number, saturating rather than wrapping.
    #[verifier::rlimit(60)]
    pub fn inc_syscall_times(&mut self, syscall_id: usize)
        requires
            old(self).wf(),
            old(self).has_current(),
            syscall_id < MAX_SYSCALL_NUM,
        ensures
            final(self).wf(),
            final(self).tasks@.len() == old(self).tasks@.len(),
            forall|l: int|
                0 <= l < old(self).tasks@.len() && l != old(self).cur_idx()
                    ==> final(self).tasks@[l] == old(self).tasks@[l],
            same_but_counted(
                old(self).cur_task(),
                final(self).tasks@[old(self).cur_idx()],
                syscall_id,
            ),
            final(self).manager.ready_queue@ == old(self).manager.ready_queue@,
            final(self).current == old(self).current,
            final(self).next_pid == old(self).next_pid,
            final(self).root_pid == old(self).root_pid,
            final(self).programs@ == old(self).programs@,
    {
        proof {
            lemma_idx_of(old(self).tasks@, old(self).cur_pid());
        }
        let pid = match self.current {
            Some(p) => p,
            None => 0,
        };
        let ti = find_index(&self.tasks, pid).unwrap();
        let v = self.tasks[ti].syscall_times[syscall_id];
        let nv = if v < u32::MAX {
            v + 1
        } else {
            v
        };
        self.tasks[ti].syscall_times[syscall_id] = nv;
        proof {
            let i = old(self).cur_idx();
            let t1 = self.tasks@[i];
            assert(t1.syscall_times@ =~= old(self).cur_task().syscall_times@.update(
                syscall_id as int,
                count_bump(old(self).cur_task().syscall_times@[syscall_id as int]),
            ));
            assert(self.tasks@ =~= old(self).tasks@.update(i, t1));
            lemma_plain_update_wf(*old(self), *self, t1);
        }
    }
}

/// The block as it looks right after being dispatched at `now_ms`.
pub open spec fn dispatched(t: TaskControlBlock, now_ms: usize) -> TaskControlBlock {
    TaskControlBlock {
        task_status: TaskStatus::Running,
        stride: crate::manager::bump_stride(t.stride, t.priority),
        first_execute_time: if t.first_execute_time is Some {
            t.first_execute_time
        } else {
            Some(now_ms)
        },
        ..t
    }
}

/// A syscall counter after one more invocation, saturating at its maximum.
pub open spec fn count_bump(v: u32) -> u32 {
    if v < u32::MAX {
        (v + 1) as u32
    } else {
        v
    }
}

/// `t1` is `t0` with exactly the counter for `syscall_id` bumped.
pub open spec fn same_but_counted(t0: TaskControlBlock, t1: TaskControlBlock, syscall_id: usize) -> bool {
    &&& t1.pid == t0.pid
    &&& t1.task_status == t0.task_status
    &&& t1.memory_set == t0.memory_set
    &&& t1.parent == t0.parent
    &&& t1.children == t0.children
    &&& t1.exit_code == t0.exit_code
    &&& t1.priority == t0.priority
    &&& t1.stride == t0.stride
    &&& t1.first_execute_time == t0.first_execute_time
    &&& t1.trap_cx == t0.trap_cx
    &&& t1.syscall_times@ == t0.syscall_times@.update(
        syscall_id as int,
        count_bump(t0.syscall_times@[syscall_id as int]),
    )
}

/// Replacing the current task's block with one that keeps its pid, status,
/// parent and children — and stays well formed — preserves the global
/// invariant.
#[verifier::rlimit(60)]
pub proof fn lemma_plain_update_wf(pre: Kernel, post: Kernel, t: TaskControlBlock)
    requires
        pre.wf(),
        pre.has_current(),
        t.pid == pre.cur_task().pid,
        t.task_status == pre.cur_task().task_status,
        t.parent == pre.cur_task().parent,
        t.children == pre.cur_task().children,
        t.wf(),
        post.tasks@ == pre.tasks@.update(pre.cur_idx(), t),
        post.manager.ready_queue@ == pre.manager.ready_queue@,
        post.current == pre.current,
        post.next_pid == pre.next_pid,
        post.root_pid == pre.root_pid,
    ensures
        post.wf(),
{
    lemma_idx_of(pre.tasks@, pre.cur_pid());
    lemma_update_same_pid(pre.tasks@, pre.cur_idx(), t);
}

/// The dispatch step preserves the global invariant.
#[verifier::rlimit(60)]
pub proof fn lemma_fetch_wf(pre: Kernel, post: Kernel, pid: usize, now_ms: usize)
    requires
        pre.wf(),
        pre.current is None,
        has_pid(pre.tasks@, pid),
        post.tasks@ == pre.tasks@.update(
            idx_of(pre.tasks@, pid),
            dispatched(task_of(pre.tasks@, pid), now_ms),
        ),
        post.current == Some(pid),
        post.next_pid == pre.next_pid,
        post.root_pid == pre.root_pid,
        exists|j: int|
            is_first_min(pre.manager.ready_queue@, pre.tasks@, j) && pid
                == pre.manager.ready_queue@[j] && post.manager.ready_queue@
                == pre.manager.ready_queue@.remove(j),
    ensures
        post.wf(),
{
    let i = idx_of(pre.tasks@, pid);
    let t = dispatched(task_of(pre.tasks@, pid), now_ms);
    lemma_idx_of(pre.tasks@, pid);
    lemma_update_same_pid(pre.tasks@, i, t);
    let q0 = pre.manager.ready_queue@;
    let j = choose|j: int|
        is_first_min(q0, pre.tasks@, j) && pid == q0[j] && post.manager.ready_queue@ == q0.remove(
            j,
        );
    assert forall|l: int| 0 <= l < post.manager.ready_queue@.len() implies has_pid(
        post.tasks@,
        #[trigger] post.manager.ready_queue@[l],
    ) && task_of(post.tasks@, post.manager.ready_queue@[l]).task_status is Ready by {
        let ol = if l < j {
            l
        } else {
            l + 1
        };
        assert(post.manager.ready_queue@[l] == q0[ol]);
        assert(q0[ol] != pid);
    }
    assert forall|x: int, y: int|
        0 <= x < y < post.manager.ready_queue@.len() implies post.manager.ready_queue@[x]
        != post.manager.ready_queue@[y] by {
        let ox = if x < j {
            x
        } else {
            x + 1
        };
        let oy = if y < j {
            y
        } else {
            y + 1
        };
        assert(post.manager.ready_queue@[x] == q0[ox]);
        assert(post.manager.ready_queue@[y] == q0[oy]);
    }
    assert forall|l: int|
        0 <= l < post.tasks@.len() && (#[trigger] post.tasks@[l]).task_status is Running
        implies post.current == Some(post.tasks@[l].pid) by {
        if l != i {
            assert(post.tasks@[l] == pre.tasks@[l]);
        }
    }
}

} // verus!
