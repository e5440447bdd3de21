//! Process-management system calls that count system calls per task and
//! map memory through the address-space operations of the current task.
use vstd::prelude::*;
pub use crate::syscall::process::TimeVal;
use crate::config::{PAGE_SIZE, VPN_RANGE, MAX_SYSCALL_NUM, VA_RANGE};
use crate::mm::address::{virt_addr, floor, page_offset, spec_va};
use crate::mm::page_table::{
    PageTable, PageTableEntry, PTE_R, PTE_W, PTE_X, PTE_U, spec_translate, range_has_mapped,
    range_all_mapped, map_range, clear_range, frames_in_memory, frame_in_memory, with_valid,
};
use crate::mm::memory::{PhysMemory, zero_frames};
use crate::mm::user_buffer::{
    translated_byte_buffer, copy_into_ranges, pages_present, pages_in_memory, pa_of, user_pas, write_seq, lemma_write_seq,
    lemma_user_pas_distinct, lemma_user_pas_in_memory,
};
use crate::mm::flags::{lemma_u8_bits, lemma_prot_bits};
use crate::syscall::process::{
    mmap_flags, prot_invalid, pages_of, first_vpn, trace_vpn, word_bytes, timeval_bytes, timeval_of_us,
};
use crate::task::task::{TaskControlBlock, TaskStatus, syscall_count, counted};
use crate::task::manager::{TaskManager, fetch_ok};
use crate::task::processor::{
    Processor, scheduled, with_status, suspend_current_and_run_next, exit_current_and_run_next,
};
use crate::task::heap::{heap_wf, brk_change_ok, moved_brk, same_task_but_heap, brk_effect};
use crate::task::memory_set::{map_for_current_task, unmap_for_current_task};

verus! {

/// Counts one more use of system call `syscall_id` by the current task; an id
/// of `MAX_SYSCALL_NUM` or more is not counted.
pub fn update_syscall_cnt(task: &mut TaskControlBlock, syscall_id: usize)
    requires
        old(task).syscall_times@.len() == MAX_SYSCALL_NUM,
        syscall_id < MAX_SYSCALL_NUM ==> old(task).syscall_times@[syscall_id as int] < usize::MAX,
    ensures
        final(task).syscall_times@.len() == MAX_SYSCALL_NUM,
        final(task).syscall_times@ == counted(old(task).syscall_times@, syscall_id),
        final(task).pid == old(task).pid,
        final(task).status == old(task).status,
        final(task).priority == old(task).priority,
        final(task).stride == old(task).stride,
        final(task).page_table@ == old(task).page_table@,
        final(task).heap_bottom == old(task).heap_bottom,
        final(task).program_brk == old(task).program_brk,
        final(task).heap_frames@ == old(task).heap_frames@,
{
    task.increase_syscall_cnt(syscall_id);
}

/// The current task exits: it is marked exited and the next task runs.
/// Returns the exited task (the call does not return to it).
pub fn sys_exit(processor: &mut Processor, manager: &mut TaskManager, _exit_code: i32) -> (r: TaskControlBlock)
    requires
        old(processor).current is Some,
        fetch_ok(old(manager)@),
    ensures
        r == with_status(old(processor).current->0, TaskStatus::Exited),
        scheduled(old(manager)@, final(processor).current, final(manager)@),
{
    exit_current_and_run_next(processor, manager)
}

/// The current task gives up the processor: it goes, ready, to the back of
/// the ready queue, and the next task runs. Returns 0.
pub fn sys_yield(processor: &mut Processor, manager: &mut TaskManager) -> (r: isize)
    requires
        old(processor).current is Some,
        fetch_ok(old(manager)@.push(with_status(old(processor).current->0, TaskStatus::Ready))),
    ensures
        r == 0,
        scheduled(
            old(manager)@.push(with_status(old(processor).current->0, TaskStatus::Ready)),
            final(processor).current,
            final(manager)@,
        ),
{
    suspend_current_and_run_next(processor, manager);
    0
}

/// Writes the time `us` microseconds after the clock's origin, as a
/// [`TimeVal`], to user address `ts` in the address space of the current
/// task, whatever the permissions of its pages, and returns 0. The time may
/// straddle two pages.
pub fn sys_get_time(page_table: &PageTable, mem: &mut PhysMemory, ts: usize, _tz: usize, us: usize) -> (r: isize)
    requires
        old(mem).wf(),
        ts + 2 * word_bytes() < VA_RANGE,
        ts + 2 * word_bytes() <= usize::MAX,
        pages_present(page_table@, ts as int, (2 * word_bytes()) as int),
        pages_in_memory(page_table@, ts as int, (2 * word_bytes()) as int, old(mem).bytes().len()),
    ensures
        r == 0,
        final(mem).wf(),
        final(mem).free_frames() == old(mem).free_frames(),
        final(mem).frame_end() == old(mem).frame_end(),
        final(mem).bytes() == write_seq(
            old(mem).bytes(),
            user_pas(page_table@, ts as int, 2 * word_bytes()),
            timeval_bytes(timeval_of_us(us)),
        ),
        forall|k: int|
            0 <= k < 2 * word_bytes() ==> #[trigger] final(mem).bytes()[pa_of(page_table@, ts + k)]
                == timeval_bytes(timeval_of_us(us))[k],
{
    let ts_val = TimeVal { sec: us / 1_000_000, usec: us % 1_000_000 };
    let ts_byte_arr = ts_val.to_bytes();
    let size_of_timeval = ts_byte_arr.len();
    let buffers = translated_byte_buffer(page_table, ts, size_of_timeval);
    proof {
        let n = (2 * word_bytes()) as nat;
        lemma_user_pas_in_memory(page_table@, ts as int, n, old(mem).bytes().len());
    }
    copy_into_ranges(mem, &buffers, &ts_byte_arr);
    proof {
        let n = (2 * word_bytes()) as nat;
        let addrs = user_pas(page_table@, ts as int, n);
        lemma_user_pas_distinct(page_table@, ts as int, n);
        lemma_write_seq(old(mem).bytes(), addrs, ts_byte_arr@);
        assert forall|k: int| 0 <= k < n implies #[trigger] mem.bytes()[pa_of(page_table@, ts + k)]
            == timeval_bytes(timeval_of_us(us))[k] by {
            assert(addrs[k] == pa_of(page_table@, ts + k));
        }
    }
    0
}

/// The entry that tracing address `addr` finds is valid and user-accessible.
pub open spec fn entry_user_valid(m: Map<usize, PageTableEntry>, addr: usize) -> bool {
    match spec_translate(m, trace_vpn(addr)) {
        Some(pte) => pte.spec_is_valid() && pte.spec_usermode(),
        None => false,
    }
}

/// Tracing may read address `addr`: its entry is valid, user-accessible and
/// readable.
pub open spec fn can_read_byte(m: Map<usize, PageTableEntry>, addr: usize) -> bool {
    entry_user_valid(m, addr) && m[trace_vpn(addr)].spec_readable()
}

/// Tracing may write address `addr`: its entry is valid, user-accessible and
/// writable.
pub open spec fn can_write_byte(m: Map<usize, PageTableEntry>, addr: usize) -> bool {
    entry_user_valid(m, addr) && m[trace_vpn(addr)].spec_writable()
}

/// The physical address of `addr` (taken as an Sv39 address) in its frame.
pub open spec fn frame_pa(m: Map<usize, PageTableEntry>, addr: usize) -> int {
    m[trace_vpn(addr)].ppn * PAGE_SIZE + spec_va(addr as nat) % PAGE_SIZE as nat
}

proof fn lemma_frame_pa_in_memory(m: Map<usize, PageTableEntry>, addr: usize, mem_len: nat)
    requires
        m.contains_key(trace_vpn(addr)),
        frame_in_memory(m[trace_vpn(addr)].ppn, mem_len),
        mem_len <= usize::MAX,
    ensures
        0 <= frame_pa(m, addr) < mem_len,
        frame_pa(m, addr) <= usize::MAX,
{
    let ppn = m[trace_vpn(addr)].ppn as int;
    let off = spec_va(addr as nat) % PAGE_SIZE as nat;
    assert(ppn * PAGE_SIZE + off < (ppn + 1) * PAGE_SIZE) by (nonlinear_arith)
        requires
            0 <= off < PAGE_SIZE,
    ;
    assert(0 <= ppn * PAGE_SIZE) by (nonlinear_arith)
        requires
            0 <= ppn,
    ;
}

/// What trace request 0 returns for address `addr` of a task whose page
/// table is `m`, with memory `bytes`: the byte there, or -1 when its entry is
/// not valid, user-accessible and readable.
pub open spec fn read_byte_traced(m: Map<usize, PageTableEntry>, bytes: Seq<u8>, addr: usize) -> isize {
    if can_read_byte(m, addr) {
        bytes[frame_pa(m, addr)] as isize
    } else {
        -1isize
    }
}

/// The memory after trace request 1 writes the low byte of `data` at the
/// writable address `addr`.
pub open spec fn write_byte_traced(m: Map<usize, PageTableEntry>, bytes: Seq<u8>, addr: usize, data: usize) -> Seq<u8> {
    bytes.update(frame_pa(m, addr), data as u8)
}

/// Traces the current task. Request 0 returns the byte at user address `id`,
/// request 1 writes the low byte of `data` there and returns 0; either
/// returns -1 when the entry of the page is not valid, user-accessible and
/// readable (resp. writable). Request 2 returns how many times the current
/// task has made system call `id`. Any other request returns -1.
pub fn sys_trace(task: &TaskControlBlock, mem: &mut PhysMemory, _trace_request: usize, _id: usize, _data: usize) -> (r: isize)
    requires
        old(mem).wf(),
        task.syscall_times@.len() == MAX_SYSCALL_NUM,
        // the frame of a traced page must lie in memory
        (_trace_request == 0 || _trace_request == 1) && entry_user_valid(task.page_table@, _id) ==> frame_in_memory(
            task.page_table@[trace_vpn(_id)].ppn,
            old(mem).bytes().len(),
        ),
    ensures
        final(mem).wf(),
        final(mem).free_frames() == old(mem).free_frames(),
        final(mem).frame_end() == old(mem).frame_end(),
        _trace_request != 1 ==> *final(mem) == *old(mem),
        _trace_request == 0 ==> r == read_byte_traced(task.page_table@, old(mem).bytes(), _id),
        _trace_request == 1 ==> if can_write_byte(task.page_table@, _id) {
            &&& r == 0
            &&& final(mem).bytes() == write_byte_traced(task.page_table@, old(mem).bytes(), _id, _data)
        } else {
            r == -1 && *final(mem) == *old(mem)
        },
        _trace_request == 2 ==> r == syscall_count(task.syscall_times@, _id) as isize,
        _trace_request > 2 ==> r == -1,
{
    let page_table = &task.page_table;
    match _trace_request {
        0 => {
            let vaddr = virt_addr(_id);
            let vpn = floor(vaddr);
            match page_table.translate(vpn) {
                Some(pte) => {
                    if !pte.is_valid() || !pte.usermode() || !pte.readable() {
                        -1
                    } else {
                        let ppn = pte.ppn;
                        proof {
                            mem.lemma_wf();
                            lemma_frame_pa_in_memory(page_table@, _id, mem.bytes().len());
                        }
                        mem.read_byte(ppn * PAGE_SIZE + page_offset(vaddr)) as isize
                    }
                },
                None => -1,
            }
        },
        1 => {
            let vaddr = virt_addr(_id);
            let vpn = floor(vaddr);
            match page_table.translate(vpn) {
                Some(pte) => {
                    if !pte.is_valid() || !pte.usermode() || !pte.writable() {
                        -1
                    } else {
                        let ppn = pte.ppn;
                        proof {
                            mem.lemma_wf();
                            lemma_frame_pa_in_memory(page_table@, _id, mem.bytes().len());
                        }
                        mem.write_byte(ppn * PAGE_SIZE + page_offset(vaddr), _data as u8);
                        0
                    }
                },
                None => -1,
            }
        },
        2 => {
            let syscall_id = _id;
            let ret = task.get_syscall_cnt(syscall_id) as isize;
            ret
        },
        _ => -1,
    }
}

/// The permission that mmap asks for protection `prot`: user-accessible,
/// readable if bit 0 is set, writable if bit 1 is set, executable if bit 2
/// is set.
pub open spec fn map_permission(prot: usize) -> u8 {
    (0x10 + 2 * (prot % 8)) as u8
}

/// Maps `len` bytes from the page-aligned address `start` into the address
/// space of the current task with protection `prot` (bit 0 read, bit 1 write,
/// bit 2 execute), each page to a fresh zeroed frame. Returns -1, changing
/// nothing, when `start` is not page-aligned, `prot` has other bits or no bit
/// set, or a page of the range is mapped already; else 0.
pub fn sys_mmap(page_table: &mut PageTable, mem: &mut PhysMemory, _start: usize, _len: usize, _prot: usize) -> (r: isize)
    requires
        old(mem).wf(),
        _start % PAGE_SIZE == 0 && !prot_invalid(_prot) ==> {
            // the page count must not overflow
            &&& _len <= usize::MAX - (PAGE_SIZE - 1)
            // there is a frame for every page, and each page is mapped once
            &&& !range_has_mapped(old(page_table)@, first_vpn(_start), pages_of(_len as nat)) ==> pages_of(
                _len as nat,
            ) <= old(mem).free_frames().len() && pages_of(_len as nat) <= VPN_RANGE
        },
    ensures
        final(mem).wf(),
        final(mem).frame_end() == old(mem).frame_end(),
        final(mem).bytes().len() == old(mem).bytes().len(),
        frames_in_memory(old(page_table)@, old(mem).bytes().len()) ==> frames_in_memory(
            final(page_table)@,
            final(mem).bytes().len(),
        ),
        ({
            let sv = first_vpn(_start);
            let n = pages_of(_len as nat);
            let free = old(mem).free_frames();
            if _start % PAGE_SIZE != 0 || prot_invalid(_prot) || range_has_mapped(old(page_table)@, sv, n) {
                &&& r == -1
                &&& final(page_table)@ == old(page_table)@
                &&& *final(mem) == *old(mem)
            } else {
                &&& r == 0
                &&& final(page_table)@ == map_range(old(page_table)@, sv, n, free, mmap_flags(_prot))
                &&& final(mem).free_frames() == free.skip(n as int)
                &&& final(mem).bytes() == zero_frames(old(mem).bytes(), free.take(n as int))
            }
        }),
{
    proof {
        lemma_prot_bits(_prot);
    }
    if _start % PAGE_SIZE != 0 {
        return -1;
    }
    if _prot & !0x7 != 0 {
        return -1;
    }
    if _prot & 0x7 == 0 {
        return -1;
    }
    let num_pages = (_len + (PAGE_SIZE - 1)) / PAGE_SIZE;
    let mut map_perm = PTE_U;
    let ghost f0 = map_perm;
    if _prot & 0x1 != 0 {
        map_perm = map_perm | PTE_R;
    }
    let ghost f1 = map_perm;
    if _prot & 0x2 != 0 {
        map_perm = map_perm | PTE_W;
    }
    let ghost f2 = map_perm;
    if _prot & 0x4 != 0 {
        map_perm = map_perm | PTE_X;
    }
    proof {
        lemma_u8_bits(f0);
        lemma_u8_bits(f1);
        lemma_u8_bits(f2);
        lemma_u8_bits(map_perm);
        assert(map_perm == map_permission(_prot));
        assert(with_valid(map_perm) == mmap_flags(_prot));
    }
    let vpn = floor(virt_addr(_start));
    proof {
        assert(spec_va(_start as nat) < 0x80_0000_0000);
        assert(num_pages == pages_of(_len as nat));
        assert(num_pages <= usize::MAX / 4096 + 1) by (nonlinear_arith)
            requires
                _len <= usize::MAX - (PAGE_SIZE - 1),
                num_pages == (_len + PAGE_SIZE - 1) as int / PAGE_SIZE as int,
        ;
        assert(vpn + num_pages <= usize::MAX) by (nonlinear_arith)
            requires
                vpn < VPN_RANGE,
                num_pages <= usize::MAX / 4096 + 1,
                usize::MAX == 0xffff_ffff || usize::MAX == 0xffff_ffff_ffff_ffff,
        ;
    }
    match map_for_current_task(page_table, mem, vpn, num_pages, map_perm) {
        0 => {
            return 0;
        },
        _ => {
            return -1;
        },
    };
}

/// Unmaps `len` bytes from the page-aligned address `start` in the address
/// space of the current task; the frames are not given back. Returns -1,
/// changing nothing, when `start` is not page-aligned or a page of the range
/// is not mapped; else 0.
pub fn sys_munmap(page_table: &mut PageTable, _start: usize, _len: usize) -> (r: isize)
    requires
        _start % PAGE_SIZE == 0 ==> {
            // the page count must not overflow
            &&& _len <= usize::MAX - (PAGE_SIZE - 1)
            // each page is unmapped once
            &&& range_all_mapped(old(page_table)@, first_vpn(_start), pages_of(_len as nat)) ==> pages_of(
                _len as nat,
            ) <= VPN_RANGE
        },
    ensures
        forall|mem_len: nat|
            frames_in_memory(old(page_table)@, mem_len) && mem_len >= PAGE_SIZE ==> #[trigger] frames_in_memory(
                final(page_table)@,
                mem_len,
            ),
        ({
            let sv = first_vpn(_start);
            let n = pages_of(_len as nat);
            if _start % PAGE_SIZE != 0 || !range_all_mapped(old(page_table)@, sv, n) {
                r == -1 && final(page_table)@ == old(page_table)@
            } else {
                r == 0 && final(page_table)@ == clear_range(old(page_table)@, sv, n)
            }
        }),
{
    if _start % PAGE_SIZE != 0 {
        return -1;
    }
    let num_pages = (_len + (PAGE_SIZE - 1)) / PAGE_SIZE;
    let vpn = floor(virt_addr(_start));
    proof {
        assert(spec_va(_start as nat) < 0x80_0000_0000);
        assert(num_pages == pages_of(_len as nat));
        assert(num_pages <= usize::MAX / 4096 + 1) by (nonlinear_arith)
            requires
                _len <= usize::MAX - (PAGE_SIZE - 1),
                num_pages == (_len + PAGE_SIZE - 1) as int / PAGE_SIZE as int,
        ;
        assert(vpn + num_pages <= usize::MAX) by (nonlinear_arith)
            requires
                vpn < VPN_RANGE,
                num_pages <= usize::MAX / 4096 + 1,
                usize::MAX == 0xffff_ffff || usize::MAX == 0xffff_ffff_ffff_ffff,
        ;
    }
    match unmap_for_current_task(page_table, vpn, num_pages) {
        0 => {
            return 0;
        },
        _ => {
            return -1;
        },
    };
}

/// Moves the program break of the current task by `size` bytes. Returns the
/// old break, or -1 (changing nothing) when the new break would lie below the
/// start of the heap.
pub fn sys_sbrk(task: &mut TaskControlBlock, mem: &mut PhysMemory, size: i32) -> (r: isize)
    requires
        heap_wf(*old(task)),
        old(mem).wf(),
        old(task).program_brk + size <= isize::MAX,
        old(task).program_brk <= isize::MAX,
        brk_change_ok(*old(task), *old(mem), size),
    ensures
        heap_wf(*final(task)),
        same_task_but_heap(*old(task), *final(task)),
        final(mem).wf(),
        final(mem).frame_end() == old(mem).frame_end(),
        frames_in_memory(old(task).page_table@, old(mem).bytes().len()) ==> frames_in_memory(
            final(task).page_table@,
            final(mem).bytes().len(),
        ),
        moved_brk(*old(task), size) < old(task).heap_bottom ==> r == -1,
        moved_brk(*old(task), size) >= old(task).heap_bottom ==> r == old(task).program_brk,
        brk_effect(*old(task), *old(mem), size, *final(task), *final(mem)),
{
    if let Some(old_brk) = task.change_program_brk(mem, size) {
        old_brk as isize
    } else {
        -1
    }
}

/// A byte that trace request 1 writes is the byte that trace request 0 then
/// reads from the same address, when the page is readable too; writing
/// leaves every other byte as it was.
pub proof fn law_traced_byte_reads_back(
    m: Map<usize, PageTableEntry>,
    bytes: Seq<u8>,
    addr: usize,
    data: usize,
    other: usize,
)
    requires
        can_read_byte(m, addr),
        0 <= frame_pa(m, addr) < bytes.len(),
    ensures
        read_byte_traced(m, write_byte_traced(m, bytes, addr, data), addr) == (data as u8) as isize,
        frame_pa(m, other) != frame_pa(m, addr) && 0 <= frame_pa(m, other) < bytes.len() ==> read_byte_traced(
            m,
            write_byte_traced(m, bytes, addr, data),
            other,
        ) == read_byte_traced(m, bytes, other),
{
}

/// Trace request 0 reads exactly through an entry that is valid, user-accessible
/// and readable: for every address, with `v` its Sv39 page (bits 12..39) and
/// `off` its offset in that page (bits 0..12), the answer is -1 unless the
/// slot of `v` exists and its flags have bits V (0x1), U (0x10) and R (0x2)
/// set, and then it is the byte at physical address `ppn * 4096 + off` of the
/// entry's frame.
pub proof fn law_traced_read_needs_readable_entry(m: Map<usize, PageTableEntry>, bytes: Seq<u8>, addr: usize)
    ensures
        ({
            let v = ((addr as int % 0x80_0000_0000) / 0x1000) as usize;
            let off = addr as int % 0x1000;
            let allowed = m.contains_key(v) && m[v].flags & 0x1u8 != 0 && m[v].flags & 0x10u8 != 0 && m[v].flags
                & 0x2u8 != 0;
            &&& can_read_byte(m, addr) <==> allowed
            &&& !allowed ==> read_byte_traced(m, bytes, addr) == -1
            &&& allowed ==> read_byte_traced(m, bytes, addr) == bytes[m[v].ppn * 0x1000 + off] as isize
        }),
{
    lemma_trace_address(m, addr);
}

/// Trace request 1 writes exactly through an entry that is valid,
/// user-accessible and writable: `sys_trace` refuses (answers -1 and changes
/// no byte) unless the slot of the Sv39 page `v` of the address exists and its
/// flags have bits V (0x1), U (0x10) and W (0x4) set; then the low byte of
/// `data` lands at physical address `ppn * 4096 + off`, `off` being the
/// address's full offset in its page, and every other byte stays.
pub proof fn law_traced_write_needs_writable_entry(
    m: Map<usize, PageTableEntry>,
    bytes: Seq<u8>,
    addr: usize,
    data: usize,
)
    ensures
        ({
            let v = ((addr as int % 0x80_0000_0000) / 0x1000) as usize;
            let off = addr as int % 0x1000;
            let allowed = m.contains_key(v) && m[v].flags & 0x1u8 != 0 && m[v].flags & 0x10u8 != 0 && m[v].flags
                & 0x4u8 != 0;
            &&& can_write_byte(m, addr) <==> allowed
            &&& write_byte_traced(m, bytes, addr, data) == bytes.update(m[v].ppn * 0x1000 + off, data as u8)
        }),
{
    lemma_trace_address(m, addr);
}

/// For an Sv39 address, the byte that this variant of trace reaches is the
/// byte that the address translates to through the page table.
pub proof fn law_traced_byte_is_translated_byte(m: Map<usize, PageTableEntry>, addr: usize)
    requires
        addr < 0x80_0000_0000,
    ensures
        frame_pa(m, addr) == pa_of(m, addr as int),
{
    lemma_trace_address(m, addr);
}

proof fn lemma_trace_address(m: Map<usize, PageTableEntry>, addr: usize)
    ensures
        trace_vpn(addr) == ((addr as int % 0x80_0000_0000) / 0x1000) as usize,
        frame_pa(m, addr) == m[trace_vpn(addr)].ppn * 0x1000 + addr as int % 0x1000,
        m.contains_key(trace_vpn(addr)) ==> {
            let f = m[trace_vpn(addr)].flags;
            &&& can_read_byte(m, addr) <==> (f & 0x1u8 != 0 && f & 0x10u8 != 0 && f & 0x2u8 != 0)
            &&& can_write_byte(m, addr) <==> (f & 0x1u8 != 0 && f & 0x10u8 != 0 && f & 0x4u8 != 0)
        },
        !m.contains_key(trace_vpn(addr)) ==> !can_read_byte(m, addr) && !can_write_byte(m, addr),
        addr < 0x80_0000_0000 ==> (addr as int / 0x1000) as usize == trace_vpn(addr),
{
    assert(VA_RANGE == 0x1000 * 0x800_0000);
    vstd::arithmetic::div_mod::lemma_mod_mod(addr as int, 0x1000, 0x800_0000);
    if m.contains_key(trace_vpn(addr)) {
        lemma_u8_bits(m[trace_vpn(addr)].flags);
    }
    if addr < 0x80_0000_0000 {
        vstd::arithmetic::div_mod::lemma_small_mod(addr as nat, 0x80_0000_0000);
    }
}

} // verus!
