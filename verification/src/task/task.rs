//! Task control blocks.
use vstd::prelude::*;
use crate::config::MAX_SYSCALL_NUM;
use crate::mm::page_table::PageTable;

verus! {

/// The state of a task.
#[derive(Clone, Copy, Debug, PartialEq, Eq, Structural)]
pub enum TaskStatus {
    UnInit,
    Ready,
    Running,
    Exited,
}

/// The priority that a new task starts with.
pub const DEFAULT_PRIORITY: usize = 16;

/// What the kernel keeps of a task.
pub struct TaskControlBlock {
    /// The task's identifier.
    pub pid: usize,
    pub status: TaskStatus,
    /// Scheduling priority: each time the task is scheduled its stride grows
    /// by `BIG_STRIDE / priority`.
    pub priority: usize,
    pub stride: usize,
    /// The task's address space.
    pub page_table: PageTable,
    /// Where the heap starts (page-aligned) and where it currently ends.
    pub heap_bottom: usize,
    pub program_brk: usize,
    /// The frames of the heap's pages, the page of `heap_bottom` first.
    pub heap_frames: Vec<usize>,
    /// How many times the task has made each system call.
    pub syscall_times: Vec<usize>,
}

impl TaskControlBlock {
    /// A ready task with the given address space, whose empty heap starts at
    /// the page-aligned address `heap_bottom`.
    pub fn new(pid: usize, page_table: PageTable, heap_bottom: usize) -> (r: Self)
        ensures
            r.pid == pid,
            r.status == TaskStatus::Ready,
            r.priority == DEFAULT_PRIORITY,
            r.stride == 0,
            r.page_table@ == page_table@,
            r.heap_bottom == heap_bottom,
            r.program_brk == heap_bottom,
            r.heap_frames@ == Seq::<usize>::empty(),
            r.syscall_times@ == Seq::new(MAX_SYSCALL_NUM as nat, |i: int| 0usize),
    {
        let mut syscall_times: Vec<usize> = Vec::new();
        let mut i: usize = 0;
        while i < MAX_SYSCALL_NUM
            invariant
                i <= MAX_SYSCALL_NUM,
                syscall_times@ == Seq::new(i as nat, |k: int| 0usize),
            decreases MAX_SYSCALL_NUM - i,
        {
            syscall_times.push(0);
            i = i + 1;
        }
        TaskControlBlock {
            pid,
            status: TaskStatus::Ready,
            priority: DEFAULT_PRIORITY,
            stride: 0,
            page_table,
            heap_bottom,
            program_brk: heap_bottom,
            heap_frames: Vec::new(),
            syscall_times,
        }
    }
}

/// The count that `times` holds for system call `syscall_id`: 0 for an id
/// that is not counted.
pub open spec fn syscall_count(times: Seq<usize>, syscall_id: usize) -> usize {
    if syscall_id < MAX_SYSCALL_NUM {
        times[syscall_id as int]
    } else {
        0
    }
}

/// `times` after one more use of system call `syscall_id` is counted; an id
/// that is not counted changes nothing.
pub open spec fn counted(times: Seq<usize>, syscall_id: usize) -> Seq<usize> {
    if syscall_id < MAX_SYSCALL_NUM {
        times.update(syscall_id as int, (times[syscall_id as int] + 1) as usize)
    } else {
        times
    }
}

impl TaskControlBlock {
    /// How many times the task has made system call `syscall_id`; 0 for an id
    /// that is not counted.
    pub fn get_syscall_cnt(&self, syscall_id: usize) -> (r: usize)
        requires
            self.syscall_times@.len() == MAX_SYSCALL_NUM,
        ensures
            r == syscall_count(self.syscall_times@, syscall_id),
    {
        if syscall_id < MAX_SYSCALL_NUM {
            self.syscall_times[syscall_id]
        } else {
            0
        }
    }

    /// Counts one more use of system call `syscall_id`; an id that is not
    /// counted changes nothing.
    pub fn increase_syscall_cnt(&mut self, syscall_id: usize)
        requires
            old(self).syscall_times@.len() == MAX_SYSCALL_NUM,
            syscall_id < MAX_SYSCALL_NUM ==> old(self).syscall_times@[syscall_id as int] < usize::MAX,
        ensures
            final(self).syscall_times@.len() == MAX_SYSCALL_NUM,
            final(self).syscall_times@ == counted(old(self).syscall_times@, syscall_id),
            final(self).pid == old(self).pid,
            final(self).status == old(self).status,
            final(self).priority == old(self).priority,
            final(self).stride == old(self).stride,
            final(self).page_table@ == old(self).page_table@,
            final(self).heap_bottom == old(self).heap_bottom,
            final(self).program_brk == old(self).program_brk,
            final(self).heap_frames@ == old(self).heap_frames@,
    {
        if syscall_id < MAX_SYSCALL_NUM {
            let c = self.syscall_times[syscall_id];
            self.syscall_times.set(syscall_id, c + 1);
        }
    }
}

/// `times` after `m` more uses of system call `syscall_id` are counted.
pub open spec fn counted_times(times: Seq<usize>, syscall_id: usize, m: nat) -> Seq<usize>
    decreases m,
{
    if m == 0 {
        times
    } else {
        counted(counted_times(times, syscall_id, (m - 1) as nat), syscall_id)
    }
}

/// After `m` more uses of a counted system call, the count that the trace
/// call reports for it has grown by `m`, and every other count is as it was.
pub proof fn law_count_after_updates(times: Seq<usize>, syscall_id: usize, m: nat)
    requires
        times.len() == MAX_SYSCALL_NUM,
        syscall_id < MAX_SYSCALL_NUM,
        times[syscall_id as int] + m <= usize::MAX,
    ensures
        counted_times(times, syscall_id, m).len() == MAX_SYSCALL_NUM,
        syscall_count(counted_times(times, syscall_id, m), syscall_id) == times[syscall_id as int] + m,
        forall|other: usize|
            other != syscall_id ==> #[trigger] syscall_count(counted_times(times, syscall_id, m), other)
                == syscall_count(times, other),
    decreases m,
{
    if m > 0 {
        law_count_after_updates(times, syscall_id, (m - 1) as nat);
        let prev = counted_times(times, syscall_id, (m - 1) as nat);
        assert forall|other: usize| other != syscall_id implies #[trigger] syscall_count(
            counted_times(times, syscall_id, m),
            other,
        ) == syscall_count(times, other) by {
            assert(syscall_count(prev, other) == syscall_count(times, other));
        }
    }
}

/// Counting a use of one system call and then of another leaves the same
/// counts as counting them the other way round.
pub proof fn law_counting_commutes(times: Seq<usize>, a: usize, b: usize)
    requires
        times.len() == MAX_SYSCALL_NUM,
        a < MAX_SYSCALL_NUM ==> times[a as int] + 2 <= usize::MAX,
        b < MAX_SYSCALL_NUM ==> times[b as int] + 2 <= usize::MAX,
    ensures
        counted(counted(times, a), b) == counted(counted(times, b), a),
{
    assert(counted(counted(times, a), b) =~= counted(counted(times, b), a));
}

} // verus!
