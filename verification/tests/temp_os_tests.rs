use rcore_os::mm::memory::PhysMemory;
use rcore_os::mm::page_table::{PageTable, PTE_R, PTE_U, PTE_V, PTE_W};
use rcore_os::task::task::{TaskControlBlock, TaskStatus};
use rcore_os::task::manager::{add_task, TaskManager};
use rcore_os::task::processor::Processor;
use rcore_os::temp_os::process::{
    sys_exit, sys_get_time, sys_mmap, sys_munmap, sys_sbrk, sys_trace, sys_yield, update_syscall_cnt,
};

const PAGE: usize = 4096;
const HEAP: usize = 0x100000;

#[test]
fn syscall_counts_are_reported_by_trace() {
    let mut mem = PhysMemory::new(4, 1);
    let mut t = TaskControlBlock::new(1, PageTable::new(), HEAP);
    assert_eq!(sys_trace(&t, &mut mem, 2, 64, 0), 0);
    update_syscall_cnt(&mut t, 64);
    update_syscall_cnt(&mut t, 64);
    update_syscall_cnt(&mut t, 93);
    update_syscall_cnt(&mut t, 93);
    update_syscall_cnt(&mut t, 64);
    update_syscall_cnt(&mut t, 64);
    assert_eq!(sys_trace(&t, &mut mem, 2, 64, 0), 4);
    assert_eq!(sys_trace(&t, &mut mem, 2, 93, 0), 2);
    // ids past the counted range are not counted
    update_syscall_cnt(&mut t, 500);
    assert_eq!(sys_trace(&t, &mut mem, 2, 500, 0), 0);
    assert_eq!(sys_trace(&t, &mut mem, 5, 0, 0), -1);
}

#[test]
fn v2_trace_read_write() {
    let mut mem = PhysMemory::new(16, 4);
    let mut t = TaskControlBlock::new(1, PageTable::new(), HEAP);
    assert_eq!(sys_mmap(&mut t.page_table, &mut mem, 0x20000, PAGE, 3), 0);
    assert_eq!(sys_trace(&t, &mut mem, 1, 0x20010, 0x2ff), 0);
    assert_eq!(sys_trace(&t, &mut mem, 0, 0x20010, 0), 0xff);
    assert_eq!(sys_trace(&t, &mut mem, 0, 0x30010, 0), -1);
    // a page mapped directly is traced; once unmapped it is not
    t.page_table.map(0x40, 5, PTE_R | PTE_W | PTE_U);
    assert_eq!(sys_trace(&t, &mut mem, 0, 0x40000, 0), 0);
    assert_eq!(sys_munmap(&mut t.page_table, 0x40000, PAGE), 0);
    assert_eq!(sys_trace(&t, &mut mem, 0, 0x40000, 0), -1);
}

#[test]
fn v2_mmap_and_munmap() {
    let mut mem = PhysMemory::new(16, 4);
    let mut pt = PageTable::new();
    assert_eq!(sys_mmap(&mut pt, &mut mem, 0x20001, PAGE, 3), -1);
    assert_eq!(sys_mmap(&mut pt, &mut mem, 0x20000, PAGE, 0), -1);
    assert_eq!(sys_mmap(&mut pt, &mut mem, 0x20000, PAGE, 0x10), -1);
    assert_eq!(sys_mmap(&mut pt, &mut mem, 0x20000, 2 * PAGE, 1), 0);
    let e = pt.translate(0x21).unwrap();
    assert_eq!(e.ppn, 5);
    assert_eq!(e.flags, PTE_V | PTE_U | PTE_R);
    assert_eq!(sys_mmap(&mut pt, &mut mem, 0x21000, PAGE, 1), -1);
    assert_eq!(sys_mmap(&mut pt, &mut mem, 0x30000, 0, 1), 0);
    assert_eq!(sys_munmap(&mut pt, 0x20001, PAGE), -1);
    assert_eq!(sys_munmap(&mut pt, 0x20000, 3 * PAGE), -1);
    assert_eq!(sys_munmap(&mut pt, 0x20000, 0), 0);
    assert_eq!(sys_munmap(&mut pt, 0x20000, 2 * PAGE), 0);
    assert!(!pt.translate(0x20).unwrap().is_valid());
    assert!(!pt.translate(0x21).unwrap().is_valid());
}

#[test]
fn v2_get_time() {
    let mut mem = PhysMemory::new(16, 4);
    let mut t = TaskControlBlock::new(1, PageTable::new(), HEAP);
    assert_eq!(sys_mmap(&mut t.page_table, &mut mem, 0x20000, PAGE, 3), 0);
    assert_eq!(sys_get_time(&t.page_table, &mut mem, 0x20100, 0, 1_500_000), 0);
    assert_eq!(sys_trace(&t, &mut mem, 0, 0x20100, 0), 1);
    let w = std::mem::size_of::<usize>();
    assert_eq!(sys_trace(&t, &mut mem, 0, 0x20100 + w, 0), (500_000 % 256) as isize);
    assert_eq!(sys_trace(&t, &mut mem, 0, 0x20100 + w + 1, 0), ((500_000 / 256) % 256) as isize);
}

#[test]
fn v2_yield_exit_and_sbrk() {
    let mut m = TaskManager::new();
    let mut p = Processor::new();
    p.current = Some(TaskControlBlock::new(1, PageTable::new(), HEAP));
    add_task(&mut m, TaskControlBlock::new(2, PageTable::new(), HEAP));
    // equal strides: the task that waited longer runs
    assert_eq!(sys_yield(&mut p, &mut m), 0);
    assert_eq!(p.current.as_ref().unwrap().pid, 2);
    let ended = sys_exit(&mut p, &mut m, 0);
    assert_eq!(ended.pid, 2);
    assert_eq!(ended.status, TaskStatus::Exited);
    assert_eq!(p.current.as_ref().unwrap().pid, 1);
    let mut mem = PhysMemory::new(8, 4);
    let mut t = TaskControlBlock::new(3, PageTable::new(), HEAP);
    assert_eq!(sys_sbrk(&mut t, &mut mem, 4096), HEAP as isize);
    assert_eq!(sys_sbrk(&mut t, &mut mem, -8192), -1);
    assert_eq!(t.program_brk, HEAP + 4096);
}

#[test]
fn v2_longest_length_is_checked_page_by_page() {
    let mut mem = PhysMemory::new(16, 4);
    let mut pt = PageTable::new();
    let len = usize::MAX - (PAGE - 1);
    assert_eq!(sys_munmap(&mut pt, 0, len), -1);
    assert_eq!(sys_mmap(&mut pt, &mut mem, 0, PAGE, 1), 0);
    assert_eq!(sys_mmap(&mut pt, &mut mem, 0, len, 1), -1);
    assert_eq!(sys_munmap(&mut pt, 0, len), -1);
    assert!(pt.translate(0).unwrap().is_valid());
}
