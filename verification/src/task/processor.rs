//! The processor: the task it is running, and switching to the next one.
use vstd::prelude::*;
use vstd::multiset::Multiset;
use crate::task::task::{TaskControlBlock, TaskStatus};
use crate::task::manager::{TaskManager, add_task, fetch_task, fetch_ok, has_ready, is_stride_choice, advanced};

verus! {

/// The task that the processor runs, if any (none while it idles).
pub struct Processor {
    pub current: Option<TaskControlBlock>,
}

/// Task `t` with status `s`.
pub open spec fn with_status(t: TaskControlBlock, s: TaskStatus) -> TaskControlBlock {
    TaskControlBlock { status: s, ..t }
}

/// The task that runs after the ready queue `q` is asked for the next one:
/// the task that `fetch_task` picks, marked running; none when `q` is empty.
/// `q2` is what is left of the queue.
pub open spec fn scheduled(q: Seq<TaskControlBlock>, next: Option<TaskControlBlock>, q2: Seq<TaskControlBlock>) -> bool {
    if has_ready(q) {
        exists|i: int|
            #[trigger] is_stride_choice(q, i) && next == Some(with_status(advanced(q[i]), TaskStatus::Running)) && q2
                == q.remove(i)
    } else if q.len() > 0 {
        next == Some(with_status(q[0], TaskStatus::Running)) && q2 == q.drop_first()
    } else {
        next is None && q2 == q
    }
}

impl Processor {
    /// A processor that runs no task.
    pub fn new() -> (r: Self)
        ensures
            r.current is None,
    {
        Processor { current: None }
    }

    /// Takes the next task from the ready queue and runs it; idles when the
    /// queue is empty.
    pub fn run_next(&mut self, manager: &mut TaskManager)
        requires
            fetch_ok(old(manager)@),
        ensures
            scheduled(old(manager)@, final(self).current, final(manager)@),
    {
        match fetch_task(manager) {
            Some(task) => {
                let mut task = task;
                task.status = TaskStatus::Running;
                self.current = Some(task);
            },
            None => {
                self.current = None;
            },
        }
    }
}

/// Puts the current task, now ready, at the back of the ready queue and runs
/// the next task.
pub fn suspend_current_and_run_next(processor: &mut Processor, manager: &mut TaskManager)
    requires
        old(processor).current is Some,
        fetch_ok(old(manager)@.push(with_status(old(processor).current->0, TaskStatus::Ready))),
    ensures
        scheduled(
            old(manager)@.push(with_status(old(processor).current->0, TaskStatus::Ready)),
            final(processor).current,
            final(manager)@,
        ),
{
    let mut task = processor.current.take().unwrap();
    task.status = TaskStatus::Ready;
    add_task(manager, task);
    processor.run_next(manager);
}

/// Ends the current task and runs the next one. Returns the ended task,
/// marked exited.
pub fn exit_current_and_run_next(processor: &mut Processor, manager: &mut TaskManager) -> (r: TaskControlBlock)
    requires
        old(processor).current is Some,
        fetch_ok(old(manager)@),
    ensures
        r == with_status(old(processor).current->0, TaskStatus::Exited),
        scheduled(old(manager)@, final(processor).current, final(manager)@),
{
    let mut task = processor.current.take().unwrap();
    task.status = TaskStatus::Exited;
    processor.run_next(manager);
    task
}

/// The identifiers of the tasks of `q`, counted with multiplicity.
pub open spec fn pids(q: Seq<TaskControlBlock>) -> Multiset<usize> {
    q.map_values(|t: TaskControlBlock| t.pid).to_multiset()
}

/// Scheduling loses no task and duplicates none: the task that runs next
/// and the tasks left in the queue are the tasks that were in the queue;
/// the processor idles only when the queue was empty.
pub proof fn law_scheduling_keeps_tasks(
    q: Seq<TaskControlBlock>,
    next: Option<TaskControlBlock>,
    q2: Seq<TaskControlBlock>,
)
    requires
        scheduled(q, next, q2),
    ensures
        match next {
            Some(t) => pids(q) == pids(q2).insert(t.pid),
            None => q.len() == 0 && q2 == q,
        },
{
    broadcast use vstd::seq_lib::group_to_multiset_ensures;

    let f = |t: TaskControlBlock| t.pid;
    let qm = q.map_values(f);
    if has_ready(q) {
        let i = choose|i: int|
            #[trigger] is_stride_choice(q, i) && next == Some(with_status(advanced(q[i]), TaskStatus::Running))
                && q2 == q.remove(i);
        assert(q.remove(i).map_values(f) =~= qm.remove(i));
        assert(qm[i] == q[i].pid);
        assert(qm.remove(i).to_multiset() =~= qm.to_multiset().remove(qm[i]));
        assert(qm.to_multiset().count(qm[i]) > 0) by {
            assert(qm.contains(qm[i]));
        }
    } else if q.len() > 0 {
        assert(q.drop_first() =~= q.remove(0));
        assert(q.remove(0).map_values(f) =~= qm.remove(0));
        assert(qm.remove(0).to_multiset() =~= qm.to_multiset().remove(qm[0]));
        assert(qm.to_multiset().count(qm[0]) > 0) by {
            assert(qm.contains(qm[0]));
        }
    }
}

} // verus!
