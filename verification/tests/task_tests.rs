use rcore_os::config::BIG_STRIDE;
use rcore_os::mm::memory::PhysMemory;
use rcore_os::mm::page_table::PageTable;
use rcore_os::syscall::process::{sys_exit, sys_sbrk, sys_trace, sys_yield};
use rcore_os::task::manager::{add_task, fetch_task, min_stride_ready, TaskManager};
use rcore_os::task::processor::Processor;
use rcore_os::task::task::{TaskControlBlock, TaskStatus, DEFAULT_PRIORITY};

const PAGE: usize = 4096;
const HEAP: usize = 0x100000;

fn task(pid: usize, stride: usize) -> TaskControlBlock {
    let mut t = TaskControlBlock::new(pid, PageTable::new(), HEAP);
    t.stride = stride;
    t
}

#[test]
fn new_task_defaults() {
    let t = TaskControlBlock::new(7, PageTable::new(), HEAP);
    assert_eq!(t.pid, 7);
    assert_eq!(t.status, TaskStatus::Ready);
    assert_eq!(t.priority, DEFAULT_PRIORITY);
    assert_eq!(t.stride, 0);
    assert_eq!(t.program_brk, HEAP);
    assert_eq!(t.syscall_times.len(), 500);
}

#[test]
fn manager_queue_operations() {
    let mut m = TaskManager::new();
    assert!(m.fetch().is_none());
    m.add(task(1, 0));
    m.add(task(2, 0));
    assert_eq!(m.get_mut(1).unwrap().pid, 2);
    assert!(m.get_mut(2).is_none());
    assert_eq!(m.fetch().unwrap().pid, 1);
    assert_eq!(m.fetch().unwrap().pid, 2);
    assert!(m.fetch().is_none());
}

#[test]
fn stride_scheduler_picks_least_stride() {
    let mut m = TaskManager::new();
    add_task(&mut m, task(1, 30));
    add_task(&mut m, task(2, 10));
    add_task(&mut m, task(3, 20));
    assert_eq!(min_stride_ready(&m), Some(1));
    let t = fetch_task(&mut m).unwrap();
    assert_eq!(t.pid, 2);
    assert_eq!(t.stride, 10 + BIG_STRIDE / DEFAULT_PRIORITY);
    assert_eq!(m.get_mut(0).unwrap().pid, 1);
    assert_eq!(m.get_mut(1).unwrap().pid, 3);
}

#[test]
fn stride_scheduler_breaks_ties_by_queue_order() {
    let mut m = TaskManager::new();
    add_task(&mut m, task(1, 5));
    add_task(&mut m, task(2, 5));
    assert_eq!(fetch_task(&mut m).unwrap().pid, 1);
}

#[test]
fn stride_scheduler_uses_priority() {
    let mut m = TaskManager::new();
    let mut t = task(1, 0);
    t.priority = 4;
    add_task(&mut m, t);
    let t = fetch_task(&mut m).unwrap();
    assert_eq!(t.stride, BIG_STRIDE / 4);
}

#[test]
fn stride_scheduler_skips_tasks_not_ready() {
    let mut m = TaskManager::new();
    let mut t = task(1, 0);
    t.status = TaskStatus::Running;
    add_task(&mut m, t);
    add_task(&mut m, task(2, 100));
    assert_eq!(fetch_task(&mut m).unwrap().pid, 2);
}

#[test]
fn without_ready_tasks_the_front_leaves() {
    let mut m = TaskManager::new();
    let mut t = task(1, 3);
    t.status = TaskStatus::Exited;
    add_task(&mut m, t);
    assert_eq!(min_stride_ready(&m), None);
    let t = fetch_task(&mut m).unwrap();
    assert_eq!(t.pid, 1);
    assert_eq!(t.stride, 3);
    assert!(fetch_task(&mut m).is_none());
}

#[test]
fn yield_runs_the_next_task() {
    let mut m = TaskManager::new();
    let mut p = Processor::new();
    let mut cur = task(1, 50);
    cur.status = TaskStatus::Running;
    p.current = Some(cur);
    add_task(&mut m, task(2, 10));
    assert_eq!(sys_yield(&mut p, &mut m), 0);
    let now = p.current.as_ref().unwrap();
    assert_eq!(now.pid, 2);
    assert_eq!(now.status, TaskStatus::Running);
    let waiting = m.get_mut(0).unwrap();
    assert_eq!(waiting.pid, 1);
    assert_eq!(waiting.status, TaskStatus::Ready);
}

#[test]
fn yield_of_the_only_task_runs_it_again() {
    let mut m = TaskManager::new();
    let mut p = Processor::new();
    p.current = Some(task(1, 0));
    assert_eq!(sys_yield(&mut p, &mut m), 0);
    assert_eq!(p.current.as_ref().unwrap().pid, 1);
    assert!(m.get_mut(0).is_none());
}

#[test]
fn exit_ends_the_current_task() {
    let mut m = TaskManager::new();
    let mut p = Processor::new();
    p.current = Some(task(1, 0));
    add_task(&mut m, task(2, 0));
    let ended = sys_exit(&mut p, &mut m, 0);
    assert_eq!(ended.pid, 1);
    assert_eq!(ended.status, TaskStatus::Exited);
    assert_eq!(p.current.as_ref().unwrap().pid, 2);
    let ended = sys_exit(&mut p, &mut m, 0);
    assert_eq!(ended.pid, 2);
    assert!(p.current.is_none());
}

#[test]
fn sbrk_grows_and_shrinks_the_heap() {
    let mut mem = PhysMemory::new(32, 8);
    let mut t = task(1, 0);
    assert_eq!(sys_sbrk(&mut t, &mut mem, 0), HEAP as isize);
    assert_eq!(sys_sbrk(&mut t, &mut mem, 5000), HEAP as isize);
    assert_eq!(t.program_brk, HEAP + 5000);
    assert_eq!(t.heap_frames, vec![8, 9]);
    assert!(t.page_table.translate(HEAP / PAGE + 1).unwrap().writable());
    // the heap is usable memory
    assert_eq!(sys_trace(&t, &mut mem, 1, HEAP + 4097, 5), 0);
    assert_eq!(sys_trace(&t, &mut mem, 0, HEAP + 4097, 0), 5);
    assert_eq!(sys_sbrk(&mut t, &mut mem, 0), (HEAP + 5000) as isize);
    assert_eq!(sys_sbrk(&mut t, &mut mem, -5000), (HEAP + 5000) as isize);
    assert_eq!(t.program_brk, HEAP);
    assert!(t.heap_frames.is_empty());
    assert!(!t.page_table.translate(HEAP / PAGE).unwrap().is_valid());
    // the freed frames are handed out again, the highest heap page's first
    assert_eq!(mem.frame_alloc(), Some(9));
    assert_eq!(mem.frame_alloc(), Some(8));
}

#[test]
fn sbrk_below_the_heap_fails() {
    let mut mem = PhysMemory::new(8, 4);
    let mut t = task(1, 0);
    assert_eq!(sys_sbrk(&mut t, &mut mem, -1), -1);
    assert_eq!(t.program_brk, HEAP);
    assert_eq!(sys_sbrk(&mut t, &mut mem, 100), HEAP as isize);
    assert_eq!(sys_sbrk(&mut t, &mut mem, -200), -1);
    assert_eq!(t.program_brk, HEAP + 100);
    assert_eq!(sys_sbrk(&mut t, &mut mem, -100), (HEAP + 100) as isize);
    assert_eq!(t.program_brk, HEAP);
}

#[test]
fn sbrk_within_a_page_maps_nothing_new() {
    let mut mem = PhysMemory::new(8, 4);
    let mut t = task(1, 0);
    assert_eq!(sys_sbrk(&mut t, &mut mem, 10), HEAP as isize);
    assert_eq!(t.heap_frames.len(), 1);
    assert_eq!(sys_sbrk(&mut t, &mut mem, 10), (HEAP + 10) as isize);
    assert_eq!(t.heap_frames.len(), 1);
    assert_eq!(mem.frame_alloc(), Some(5));
}
