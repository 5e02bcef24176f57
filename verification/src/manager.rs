//! The task manager: a ready queue plus stride scheduling.
//!
//! Every ready task carries a stride accumulator. Each fetch scans the
//! queue, takes the task with the least stride (ties broken by queue
//! position, first enqueued first), and charges it a pass of
//! `BIG_STRIDE / priority`, so long-run CPU share is proportional to
//! priority. The accumulator saturates at `usize::MAX` instead of wrapping,
//! so a stride never decreases.

use crate::tcb::has_pid;
use crate::tcb::idx_of;
use crate::tcb::lemma_idx_of;
use crate::tcb::pids_unique;
use crate::tcb::task_of;
use crate::tcb::find_index;
use crate::tcb::TaskControlBlock;
use crate::tcb::TaskStatus;
use crate::BIG_STRIDE;
use vstd::prelude::*;

verus! {

/// Stride of the block with this pid.
pub open spec fn stride_of(tasks: Seq<TaskControlBlock>, pid: usize) -> usize {
    task_of(tasks, pid).stride
}

/// `q[j]` is the first queue entry whose task has the least stride.
pub open spec fn is_first_min(q: Seq<usize>, tasks: Seq<TaskControlBlock>, j: int) -> bool {
    &&& 0 <= j < q.len()
    &&& forall|i: int| 0 <= i < q.len() ==> stride_of(tasks, q[j]) <= stride_of(tasks, #[trigger] q[i])
    &&& forall|i: int| 0 <= i < j ==> stride_of(tasks, #[trigger] q[i]) > stride_of(tasks, q[j])
}

/// The stride after one dispatch: the old stride plus `BIG_STRIDE /
/// priority`, saturating at `usize::MAX` so the accumulator never wraps
/// backwards.
pub open spec fn bump_stride(stride: usize, priority: usize) -> usize
    recommends
        1 <= priority,
{
    let pass = BIG_STRIDE as int / priority as int;
    if stride + pass <= usize::MAX {
        (stride + pass) as usize
    } else {
        usize::MAX
    }
}

/// The block as it looks right after being charged one dispatch.
pub open spec fn charged(t: TaskControlBlock) -> TaskControlBlock {
    TaskControlBlock { stride: bump_stride(t.stride, t.priority), ..t }
}

/// The ready queue, holding the pids of runnable tasks in arrival order.
pub struct TaskManager {
    pub ready_queue: Vec<usize>,
}

impl TaskManager {
    /// An empty ready queue.
    pub fn new() -> (r: Self)
        ensures
            r.ready_queue@ == Seq::<usize>::empty(),
    {
        let r = TaskManager { ready_queue: Vec::new() };
        proof {
            assert(r.ready_queue@ =~= Seq::<usize>::empty());
        }
        r
    }

    /// Appends a ready task to the back of the queue.
    pub fn add(&mut self, pid: usize)
        ensures
            final(self).ready_queue@ == old(self).ready_queue@.push(pid),
    {
        self.ready_queue.push(pid);
    }

    /// Takes the first least-stride task out of the queue and charges it one
    /// pass. Returns its pid, or none when the queue is empty. The chosen
    /// task's stride never decreases.
    pub fn fetch(&mut self, tasks: &mut Vec<TaskControlBlock>) -> (r: Option<usize>)
        requires
            pids_unique(old(tasks)@),
            forall|i: int|
                0 <= i < old(self).ready_queue@.len() ==> has_pid(
                    old(tasks)@,
                    #[trigger] old(self).ready_queue@[i],
                ) && task_of(old(tasks)@, old(self).ready_queue@[i]).task_status is Ready
                    && task_of(old(tasks)@, old(self).ready_queue@[i]).priority >= 2,
        ensures
            r is None <==> old(self).ready_queue@.len() == 0,
            r is None ==> *final(self) == *old(self) && *final(tasks) == *old(tasks),
            r matches Some(pid) ==> {
                &&& has_pid(old(tasks)@, pid)
                &&& final(tasks)@ == old(tasks)@.update(
                    idx_of(old(tasks)@, pid),
                    charged(task_of(old(tasks)@, pid)),
                )
                &&& stride_of(final(tasks)@, pid) >= stride_of(old(tasks)@, pid)
                &&& exists|j: int|
                    is_first_min(old(self).ready_queue@, old(tasks)@, j)
                        && pid == old(self).ready_queue@[j]
                        && final(self).ready_queue@ == old(self).ready_queue@.remove(j)
            },
    {
        let n = self.ready_queue.len();
        if n == 0 {
            return None;
        }
        let first_pid = self.ready_queue[0];
        let fi = find_index(tasks, first_pid).unwrap();
        let mut idx_min: usize = 0;
        let mut stride_min: usize = tasks[fi].stride;
        let mut i: usize = 1;
        while i < n
            invariant
                pids_unique(tasks@),
                n == self.ready_queue@.len(),
                forall|l: int|
                    0 <= l < n ==> has_pid(tasks@, #[trigger] self.ready_queue@[l]) && task_of(
                        tasks@,
                        self.ready_queue@[l],
                    ).task_status is Ready && task_of(tasks@, self.ready_queue@[l]).priority >= 2,
                1 <= i <= n,
                idx_min < i,
                stride_min == stride_of(tasks@, self.ready_queue@[idx_min as int]),
                forall|l: int|
                    0 <= l < i ==> stride_of(tasks@, #[trigger] self.ready_queue@[l])
                        >= stride_min,
                forall|l: int|
                    0 <= l < idx_min ==> stride_of(tasks@, #[trigger] self.ready_queue@[l])
                        > stride_min,
            decreases n - i,
        {
            let pid = self.ready_queue[i];
            let ti = find_index(tasks, pid).unwrap();
            let s = tasks[ti].stride;
            if tasks[ti].task_status == TaskStatus::Ready && s < stride_min {
                stride_min = s;
                idx_min = i;
            }
            i += 1;
        }
        proof {
            assert(is_first_min(self.ready_queue@, tasks@, idx_min as int));
        }
        let ghost q0 = self.ready_queue@;
        let pid = self.ready_queue.remove(idx_min);
        let ti = find_index(tasks, pid).unwrap();
        let prio = tasks[ti].priority;
        let pass = BIG_STRIDE / prio;
        let cur = tasks[ti].stride;
        if cur <= usize::MAX - pass {
            tasks[ti].stride = cur + pass;
        } else {
            tasks[ti].stride = usize::MAX;
        }
        proof {
            lemma_idx_of(old(tasks)@, pid);
            assert(tasks@ =~= old(tasks)@.update(
                idx_of(old(tasks)@, pid),
                charged(task_of(old(tasks)@, pid)),
            ));
            assert(is_first_min(q0, old(tasks)@, idx_min as int));
        }
        Some(pid)
    }
}

} // verus!
