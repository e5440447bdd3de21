//! The ready queue and the stride scheduler that picks from it.
use vstd::prelude::*;
use std::collections::VecDeque;
use crate::config::BIG_STRIDE;
use crate::task::task::{TaskControlBlock, TaskStatus};

verus! {

/// The tasks that wait to run, in the order in which they were added.
pub struct TaskManager {
    ready_queue: VecDeque<TaskControlBlock>,
}

impl View for TaskManager {
    type V = Seq<TaskControlBlock>;

    closed spec fn view(&self) -> Seq<TaskControlBlock> {
        self.ready_queue@
    }
}

/// Task `t` is ready to run.
pub open spec fn is_ready(t: TaskControlBlock) -> bool {
    t.status == TaskStatus::Ready
}

/// Position `i` of queue `q` holds the task that the stride scheduler picks:
/// a ready task whose stride no ready task undercuts, and the first such.
pub open spec fn is_stride_choice(q: Seq<TaskControlBlock>, i: int) -> bool {
    &&& 0 <= i < q.len()
    &&& is_ready(q[i])
    &&& forall|j: int| 0 <= j < q.len() && is_ready(#[trigger] q[j]) ==> q[i].stride <= q[j].stride
    &&& forall|j: int| 0 <= j < i && is_ready(#[trigger] q[j]) ==> q[i].stride < q[j].stride
}

/// Some task of `q` is ready.
pub open spec fn has_ready(q: Seq<TaskControlBlock>) -> bool {
    exists|j: int| 0 <= j < q.len() && is_ready(#[trigger] q[j])
}

/// The stride of the picked task can be advanced: its priority is not zero
/// and the new stride fits.
pub open spec fn can_advance(t: TaskControlBlock) -> bool {
    t.priority > 0 && t.stride + BIG_STRIDE / t.priority <= usize::MAX
}

/// Task `t` after being scheduled once more.
pub open spec fn advanced(t: TaskControlBlock) -> TaskControlBlock {
    TaskControlBlock { stride: (t.stride + BIG_STRIDE / t.priority) as usize, ..t }
}

/// What `fetch_task` requires of a queue: the task it picks can be advanced.
pub open spec fn fetch_ok(q: Seq<TaskControlBlock>) -> bool {
    forall|i: int| #[trigger] is_stride_choice(q, i) ==> can_advance(q[i])
}

impl TaskManager {
    /// An empty queue.
    pub fn new() -> (r: Self)
        ensures
            r@ == Seq::<TaskControlBlock>::empty(),
    {
        TaskManager { ready_queue: VecDeque::new() }
    }

    /// The task at position `pid` of the queue, if there is one.
    pub fn get_mut(&self, pid: usize) -> (r: Option<&TaskControlBlock>)
        ensures
            pid < self@.len() ==> r == Some(&self@[pid as int]),
            pid >= self@.len() ==> r is None,
    {
        if pid < self.ready_queue.len() {
            Some(&self.ready_queue[pid])
        } else {
            None
        }
    }

    /// Adds `task` at the back of the queue.
    pub fn add(&mut self, task: TaskControlBlock)
        ensures
            final(self)@ == old(self)@.push(task),
    {
        self.ready_queue.push_back(task);
    }

    /// Takes the task at the front of the queue, if there is one.
    pub fn fetch(&mut self) -> (r: Option<TaskControlBlock>)
        ensures
            old(self)@.len() == 0 ==> r is None && final(self)@ == old(self)@,
            old(self)@.len() > 0 ==> r == Some(old(self)@[0]) && final(self)@ == old(self)@.drop_first(),
    {
        let r = self.ready_queue.pop_front();
        proof {
            if old(self)@.len() > 0 {
                assert(old(self)@.subrange(1, old(self)@.len() as int) =~= old(self)@.drop_first());
            }
        }
        r
    }
}

/// Adds `task` at the back of the ready queue.
pub fn add_task(manager: &mut TaskManager, task: TaskControlBlock)
    ensures
        final(manager)@ == old(manager)@.push(task),
{
    manager.add(task);
}

/// The position of the task that the stride scheduler picks from the ready
/// queue: the ready task of least stride, the first of them on a tie; `None`
/// when no task is ready.
pub fn min_stride_ready(manager: &TaskManager) -> (r: Option<usize>)
    ensures
        match r {
            Some(i) => is_stride_choice(manager@, i as int),
            None => !has_ready(manager@),
        },
{
    let ghost q = manager@;
    let mut min_stride_task: Option<(usize, usize)> = None;
    let n = manager.ready_queue.len();
    let mut idx: usize = 0;
    while idx < n
        invariant
            idx <= n,
            n == q.len(),
            manager@ == q,
            match min_stride_task {
                Some((i, stride)) => {
                    &&& i < idx
                    &&& stride == q[i as int].stride
                    &&& is_ready(q[i as int])
                    &&& forall|j: int| 0 <= j < idx && is_ready(#[trigger] q[j]) ==> stride <= q[j].stride
                    &&& forall|j: int| 0 <= j < i && is_ready(#[trigger] q[j]) ==> stride < q[j].stride
                },
                None => forall|j: int| 0 <= j < idx ==> !is_ready(#[trigger] q[j]),
            },
        decreases n - idx,
    {
        let task = &manager.ready_queue[idx];
        if task.status == TaskStatus::Ready {
            let stride = task.stride;
            let better = match min_stride_task {
                None => true,
                Some((_, best)) => stride < best,
            };
            if better {
                min_stride_task = Some((idx, stride));
            }
        }
        idx = idx + 1;
    }
    match min_stride_task {
        Some((i, _)) => Some(i),
        None => None,
    }
}

/// Takes the next task to run from the ready queue by stride scheduling: the
/// ready task of least stride (the first of them on a tie) leaves the queue
/// with its stride advanced by `BIG_STRIDE / priority`. When no task is ready,
/// the task at the front leaves, if there is one.
pub fn fetch_task(manager: &mut TaskManager) -> (r: Option<TaskControlBlock>)
    requires
        fetch_ok(old(manager)@),
    ensures
        ({
            let q = old(manager)@;
            if has_ready(q) {
                exists|i: int|
                    #[trigger] is_stride_choice(q, i) && r == Some(advanced(q[i])) && final(manager)@ == q.remove(i)
            } else if q.len() > 0 {
                r == Some(q[0]) && final(manager)@ == q.drop_first()
            } else {
                r is None && final(manager)@ == q
            }
        }),
{
    let ghost q = manager@;
    let min_stride_task = min_stride_ready(manager);
    if let Some(i) = min_stride_task {
        let mut task = manager.ready_queue.remove(i).unwrap();
        let pass = BIG_STRIDE / task.priority;
        task.stride = task.stride + pass;
        Some(task)
    } else {
        proof {
            assert(!has_ready(q));
        }
        manager.fetch()
    }
}

/// The stride scheduler's pick is unique: at most one position of a queue is
/// its choice.
pub proof fn lemma_stride_choice_unique(q: Seq<TaskControlBlock>, i: int, j: int)
    requires
        is_stride_choice(q, i),
        is_stride_choice(q, j),
    ensures
        i == j,
{
    if i < j {
        assert(is_ready(q[i]));
    } else if j < i {
        assert(is_ready(q[j]));
    }
}

} // verus!
