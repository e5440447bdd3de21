use rcore_os::mm::address::{ceil, floor, page_offset, virt_addr, virt_page_num};
use rcore_os::mm::memory::PhysMemory;
use rcore_os::mm::page_table::{PageTable, PageTableEntry, PTE_R, PTE_U, PTE_V, PTE_W, PTE_X};
use rcore_os::mm::user_buffer::translated_byte_buffer;
use rcore_os::syscall::process::{sys_get_time, sys_mmap, sys_munmap, sys_trace, TimeVal};
use rcore_os::task::task::TaskControlBlock;

const PAGE: usize = 4096;

const HEAP: usize = 0x100000;

fn setup() -> (TaskControlBlock, PhysMemory) {
    // 32 frames, of which frames 8.. are free
    (TaskControlBlock::new(1, PageTable::new(), HEAP), PhysMemory::new(32, 8))
}

#[test]
fn address_helpers() {
    assert_eq!(virt_addr(0x1234), 0x1234);
    assert_eq!(virt_addr((1usize << 39) + 5), 5);
    assert_eq!(virt_page_num((1usize << 27) + 3), 3);
    assert_eq!(floor(0x2fff), 2);
    assert_eq!(page_offset(0x2fff), 0xfff);
    assert_eq!(ceil(0), 0);
    assert_eq!(ceil(1), 1);
    assert_eq!(ceil(0x1000), 1);
    assert_eq!(ceil(0x1001), 2);
}

#[test]
fn entry_flags() {
    let e = PageTableEntry::new(3, PTE_V | PTE_R | PTE_U);
    assert!(e.is_valid() && e.readable() && e.usermode());
    assert!(!e.writable() && !e.executable());
    assert!(!PageTableEntry::empty().is_valid());
}

#[test]
fn frames_are_handed_out_in_order_and_reused_first() {
    let mut mem = PhysMemory::new(4, 1);
    assert_eq!(mem.frame_alloc(), Some(1));
    assert_eq!(mem.frame_alloc(), Some(2));
    mem.frame_dealloc(1);
    assert_eq!(mem.frame_alloc(), Some(1));
    assert_eq!(mem.frame_alloc(), Some(3));
    assert_eq!(mem.frame_alloc(), None);
}

#[test]
fn allocated_frame_is_zeroed() {
    let mut mem = PhysMemory::new(2, 1);
    mem.write_byte(PAGE + 7, 9);
    assert_eq!(mem.read_byte(PAGE + 7), 9);
    assert_eq!(mem.frame_alloc(), Some(1));
    assert_eq!(mem.read_byte(PAGE + 7), 0);
}

#[test]
fn mmap_maps_fresh_frames_with_requested_permissions() {
    let (mut t, mut mem) = setup();
    assert_eq!(sys_mmap(&mut t.page_table, &mut mem, 0x10000, 2 * PAGE, 3), 0);
    let e0 = t.page_table.translate(0x10).unwrap();
    let e1 = t.page_table.translate(0x11).unwrap();
    assert_eq!(e0.ppn, 8);
    assert_eq!(e1.ppn, 9);
    assert_eq!(e0.flags, PTE_V | PTE_U | PTE_R | PTE_W);
    assert!(e0.is_valid() && e0.usermode() && e0.readable() && e0.writable() && !e0.executable());
    assert!(t.page_table.translate(0x12).is_none());
    assert_eq!(mem.frame_alloc(), Some(10));
}

#[test]
fn mmap_rounds_length_up_to_pages() {
    let (mut t, mut mem) = setup();
    assert_eq!(sys_mmap(&mut t.page_table, &mut mem, 0x10000, PAGE + 1, 4), 0);
    assert!(t.page_table.translate(0x11).unwrap().is_valid());
    assert_eq!(t.page_table.translate(0x11).unwrap().flags, PTE_V | PTE_U | PTE_X);
    assert!(t.page_table.translate(0x12).is_none());
}

#[test]
fn mmap_rejects_bad_arguments() {
    let (mut t, mut mem) = setup();
    assert_eq!(sys_mmap(&mut t.page_table, &mut mem, 0x10001, PAGE, 1), -1);
    assert_eq!(sys_mmap(&mut t.page_table, &mut mem, 0x10000, PAGE, 0), -1);
    assert_eq!(sys_mmap(&mut t.page_table, &mut mem, 0x10000, PAGE, 8), -1);
    assert_eq!(sys_mmap(&mut t.page_table, &mut mem, 0x10000, PAGE, 9), -1);
    assert!(t.page_table.translate(0x10).is_none());
    assert_eq!(mem.frame_alloc(), Some(8));
}

#[test]
fn mmap_of_zero_length_succeeds_without_mapping() {
    let (mut t, mut mem) = setup();
    assert_eq!(sys_mmap(&mut t.page_table, &mut mem, 0x10000, 0, 1), 0);
    assert!(t.page_table.translate(0x10).is_none());
}

#[test]
fn mmap_over_a_mapped_page_fails() {
    let (mut t, mut mem) = setup();
    assert_eq!(sys_mmap(&mut t.page_table, &mut mem, 0x11000, PAGE, 1), 0);
    assert_eq!(sys_mmap(&mut t.page_table, &mut mem, 0x10000, 3 * PAGE, 1), -1);
    assert!(t.page_table.translate(0x10).is_none());
    assert_eq!(t.page_table.translate(0x11).unwrap().ppn, 8);
}

#[test]
fn mmap_out_of_frames_undoes_its_mappings() {
    let mut t = TaskControlBlock::new(1, PageTable::new(), HEAP);
    let mut mem = PhysMemory::new(4, 2);
    assert_eq!(sys_mmap(&mut t.page_table, &mut mem, 0x10000, 3 * PAGE, 3), -1);
    // the pages that were mapped are unmapped again; their frames stay used
    assert!(!t.page_table.translate(0x10).unwrap().is_valid());
    assert!(!t.page_table.translate(0x11).unwrap().is_valid());
    assert!(t.page_table.translate(0x12).is_none());
    assert_eq!(mem.frame_alloc(), None);
}

#[test]
fn munmap_undoes_mmap() {
    let (mut t, mut mem) = setup();
    assert_eq!(sys_mmap(&mut t.page_table, &mut mem, 0x10000, 2 * PAGE, 3), 0);
    assert_eq!(sys_munmap(&mut t.page_table, 0x10000, 2 * PAGE), 0);
    assert!(!t.page_table.translate(0x10).unwrap().is_valid());
    assert!(!t.page_table.translate(0x11).unwrap().is_valid());
    // the range is free again
    assert_eq!(sys_mmap(&mut t.page_table, &mut mem, 0x10000, 2 * PAGE, 1), 0);
}

#[test]
fn munmap_rejects_bad_ranges() {
    let (mut t, mut mem) = setup();
    assert_eq!(sys_mmap(&mut t.page_table, &mut mem, 0x10000, PAGE, 3), 0);
    assert_eq!(sys_munmap(&mut t.page_table, 0x10001, PAGE), -1);
    assert_eq!(sys_munmap(&mut t.page_table, 0x10000, 2 * PAGE), -1);
    assert!(t.page_table.translate(0x10).unwrap().is_valid());
    assert_eq!(sys_munmap(&mut t.page_table, 0x10000, 0), 0);
    assert!(t.page_table.translate(0x10).unwrap().is_valid());
}

#[test]
fn trace_reads_back_what_it_wrote() {
    let (mut t, mut mem) = setup();
    assert_eq!(sys_mmap(&mut t.page_table, &mut mem, 0x10000, PAGE, 3), 0);
    assert_eq!(sys_trace(&t, &mut mem, 0, 0x10005, 0), 0);
    assert_eq!(sys_trace(&t, &mut mem, 1, 0x10005, 0x1ab), 0);
    assert_eq!(sys_trace(&t, &mut mem, 0, 0x10005, 0), 0xab);
    assert_eq!(mem.read_byte(8 * PAGE + 5), 0xab);
    assert_eq!(mem.size(), 32 * PAGE);
}

#[test]
fn trace_respects_page_permissions() {
    let (mut t, mut mem) = setup();
    assert_eq!(sys_mmap(&mut t.page_table, &mut mem, 0x10000, PAGE, 1), 0);
    assert_eq!(sys_trace(&t, &mut mem, 1, 0x10000, 7), -1);
    assert_eq!(sys_mmap(&mut t.page_table, &mut mem, 0x20000, PAGE, 2), 0);
    assert_eq!(sys_trace(&t, &mut mem, 0, 0x20000, 0), -1);
    assert_eq!(sys_trace(&t, &mut mem, 0, 0x30000, 0), -1);
    assert_eq!(sys_trace(&t, &mut mem, 1, 0x30000, 0), -1);
    // a kernel-only page is not traced
    t.page_table.map(0x40, 20, PTE_R | PTE_W);
    assert_eq!(sys_trace(&t, &mut mem, 0, 0x40000, 0), -1);
    assert_eq!(sys_trace(&t, &mut mem, 1, 0x40000, 0), -1);
}

#[test]
fn trace_reports_syscall_counts() {
    let (mut t, mut mem) = setup();
    assert_eq!(sys_trace(&t, &mut mem, 2, 64, 0), 0);
    t.increase_syscall_cnt(64);
    t.increase_syscall_cnt(64);
    t.increase_syscall_cnt(169);
    assert_eq!(sys_trace(&t, &mut mem, 2, 64, 0), 2);
    assert_eq!(sys_trace(&t, &mut mem, 2, 169, 0), 1);
    assert_eq!(sys_trace(&t, &mut mem, 2, 600, 0), 0);
}

#[test]
fn trace_other_requests() {
    let (t, mut mem) = setup();
    assert_eq!(sys_trace(&t, &mut mem, 3, 0, 0), -1);
    assert_eq!(sys_trace(&t, &mut mem, 100, 0, 0), -1);
}

#[test]
fn second_mmap_and_second_munmap_are_refused() {
    let (mut t, mut mem) = setup();
    assert_eq!(sys_mmap(&mut t.page_table, &mut mem, 0x10000, 2 * PAGE, 3), 0);
    assert_eq!(sys_mmap(&mut t.page_table, &mut mem, 0x10000, 2 * PAGE, 3), -1);
    assert_eq!(t.page_table.translate(0x10).unwrap().ppn, 8);
    assert_eq!(sys_munmap(&mut t.page_table, 0x10000, 2 * PAGE), 0);
    assert_eq!(sys_munmap(&mut t.page_table, 0x10000, 2 * PAGE), -1);
}

#[test]
fn later_clock_readings_give_later_times() {
    let (mut t, mut mem) = setup();
    assert_eq!(sys_mmap(&mut t.page_table, &mut mem, 0x10000, PAGE, 3), 0);
    let read_sec_usec = |t: &TaskControlBlock, mem: &mut PhysMemory| {
        let w = std::mem::size_of::<usize>();
        let mut sec: usize = 0;
        let mut usec: usize = 0;
        for k in 0..w {
            sec |= (sys_trace(t, mem, 0, 0x10000 + k, 0) as usize) << (8 * k);
            usec |= (sys_trace(t, mem, 0, 0x10000 + w + k, 0) as usize) << (8 * k);
        }
        (sec, usec)
    };
    assert_eq!(sys_get_time(&t.page_table, &mut mem, 0x10000, 0, 1_999_999), 0);
    let first = read_sec_usec(&t, &mut mem);
    assert_eq!(sys_get_time(&t.page_table, &mut mem, 0x10000, 0, 2_000_000), 0);
    let second = read_sec_usec(&t, &mut mem);
    assert_eq!(first, (1, 999_999));
    assert_eq!(second, (2, 0));
    assert!(first < second);
}

#[test]
fn buffer_of_a_range_across_two_pages() {
    let (mut t, mut mem) = setup();
    assert_eq!(sys_mmap(&mut t.page_table, &mut mem, 0x10000, 2 * PAGE, 3), 0);
    let pieces = translated_byte_buffer(&t.page_table, 0x10ffc, 10);
    assert_eq!(pieces.len(), 2);
    assert_eq!(pieces[0].start, 8 * PAGE + 0xffc);
    assert_eq!(pieces[0].len, 4);
    assert_eq!(pieces[1].start, 9 * PAGE);
    assert_eq!(pieces[1].len, 6);
}

#[test]
fn time_val_layout() {
    let tv = TimeVal { sec: 0x0102, usec: 3 };
    let bytes = tv.to_bytes();
    let w = std::mem::size_of::<usize>();
    assert_eq!(bytes.len(), 2 * w);
    assert_eq!(bytes[0], 2);
    assert_eq!(bytes[1], 1);
    assert_eq!(bytes[w], 3);
}

#[test]
fn get_time_writes_seconds_and_microseconds_across_pages() {
    let (mut t, mut mem) = setup();
    assert_eq!(sys_mmap(&mut t.page_table, &mut mem, 0x10000, 2 * PAGE, 3), 0);
    let ts = 0x10ffc;
    let us = 3_000_042usize;
    assert_eq!(sys_get_time(&t.page_table, &mut mem, ts, 0, us), 0);
    let w = std::mem::size_of::<usize>();
    let mut sec: usize = 0;
    let mut usec: usize = 0;
    for k in 0..w {
        let b = sys_trace(&t, &mut mem, 0, ts + k, 0) as usize;
        sec |= b << (8 * k);
        let b = sys_trace(&t, &mut mem, 0, ts + w + k, 0) as usize;
        usec |= b << (8 * k);
    }
    assert_eq!(sec, 3);
    assert_eq!(usec, 42);
}

#[test]
fn fresh_mapping_reads_zero() {
    let mut t = TaskControlBlock::new(1, PageTable::new(), HEAP);
    let mut mem = PhysMemory::new(4, 2);
    mem.write_byte(2 * PAGE + 100, 0xff);
    assert_eq!(sys_mmap(&mut t.page_table, &mut mem, 0x5000, PAGE, 1), 0);
    assert_eq!(sys_trace(&t, &mut mem, 0, 0x5000 + 100, 0), 0);
}

#[test]
fn longest_length_is_checked_page_by_page() {
    let (mut t, mut mem) = setup();
    let len = usize::MAX - (PAGE - 1);
    assert_eq!(sys_munmap(&mut t.page_table, 0, len), -1);
    assert_eq!(sys_mmap(&mut t.page_table, &mut mem, 0, PAGE, 3), 0);
    assert_eq!(sys_mmap(&mut t.page_table, &mut mem, 0, len, 3), -1);
    assert_eq!(sys_munmap(&mut t.page_table, 0, len), -1);
    assert_eq!(t.page_table.translate(0).unwrap().ppn, 8);
    assert!(t.page_table.translate(0).unwrap().is_valid());
}
