//! Process-management system calls: exit, yield, time, trace, mmap, munmap
//! and sbrk. Each takes the state of the current task that it acts on.
use vstd::prelude::*;
use crate::config::{PAGE_SIZE, VPN_RANGE, VA_RANGE, MAX_SYSCALL_NUM};
use crate::mm::address::{
    virt_addr, virt_page_num, floor, spec_va, vpn_at, range_offset, in_page_range,
    lemma_vpn_at, lemma_range_offset,
};
use crate::mm::page_table::{
    PageTable, PageTableEntry, PTE_V, PTE_R, PTE_W, PTE_X, PTE_U, is_mapped, range_has_mapped,
    map_range, clear_range, frames_in_memory, frame_in_memory, range_all_mapped, spec_translate, with_valid, lemma_map_range_step,
    lemma_clear_range_step, lemma_clear_map_range,
};
use crate::mm::memory::{PhysMemory, zero_frames, lemma_zero_frames};
use crate::mm::flags::{lemma_u8_bits, lemma_prot_bits};
use crate::mm::user_buffer::{
    flatten, translated_byte_buffer, copy_into_ranges, pages_present, pages_in_memory, pa_of, user_pas, write_seq,
    lemma_write_seq, lemma_user_pas_distinct, lemma_user_pas_in_memory, lemma_flatten_first,
};
use crate::task::task::{TaskControlBlock, TaskStatus, syscall_count};
use crate::task::manager::{TaskManager, fetch_ok};
use crate::task::processor::{
    Processor, scheduled, with_status, suspend_current_and_run_next, exit_current_and_run_next,
};
use crate::task::heap::{heap_wf, brk_change_ok, moved_brk, same_task_but_heap, brk_effect};

verus! {

/// `prot` asks for bits other than read (bit 0), write (bit 1) and execute
/// (bit 2), or for none of them.
pub open spec fn prot_invalid(prot: usize) -> bool {
    prot == 0 || prot > 7
}

/// The flags of the entries of the pages that mmap maps for protection
/// `prot`: valid (bit 0) and user-accessible (bit 4), readable (bit 1),
/// writable (bit 2) and executable (bit 3) as bits 0, 1 and 2 of `prot` ask.
pub open spec fn mmap_flags(prot: usize) -> u8 {
    (0x11 + 2 * (prot % 8)) as u8
}

/// The number of pages that `len` bytes occupy, rounded up.
pub open spec fn pages_of(len: nat) -> nat {
    ((len + PAGE_SIZE - 1) as int / PAGE_SIZE as int) as nat
}

/// The page that holds address `start` (taken as an Sv39 address).
pub open spec fn first_vpn(start: usize) -> nat {
    spec_va(start as nat) / (PAGE_SIZE as nat)
}

/// The arguments of an mmap of `len > 0` bytes from `start` pass the checks
/// that come before the page table is looked at.
pub open spec fn mmap_args_ok(start: usize, len: usize, prot: usize) -> bool {
    start % PAGE_SIZE == 0 && !prot_invalid(prot) && len != 0
}

proof fn lemma_first_vpn(start: usize)
    ensures
        first_vpn(start) < VPN_RANGE,
{
    assert(spec_va(start as nat) < VA_RANGE);
}

/// Maps `len` bytes from the page-aligned address `start` into the page table
/// of the current task, with protection `prot` (bit 0 read, bit 1 write,
/// bit 2 execute), each page to a fresh zeroed frame.
///
/// Returns -1 when `start` is not page-aligned, `prot` has other bits or no
/// bit set, or a page of the range is already mapped; returns 0 at once when
/// `len` is 0. When the frames run out part way, the pages mapped so far are
/// unmapped again (their frames stay used) and -1 is returned.
#[verifier::loop_isolation(false)]
pub fn sys_mmap(page_table: &mut PageTable, mem: &mut PhysMemory, start: usize, len: usize, prot: usize) -> (r: isize)
    requires
        old(mem).wf(),
        // the page count `(len + PAGE_SIZE - 1) / PAGE_SIZE` must not overflow
        mmap_args_ok(start, len, prot) ==> len <= usize::MAX - (PAGE_SIZE - 1),
        // a range of more pages than Sv39 has would map one page twice
        mmap_args_ok(start, len, prot) && pages_of(len as nat) > VPN_RANGE && !range_has_mapped(
            old(page_table)@,
            first_vpn(start),
            pages_of(len as nat),
        ) ==> old(mem).free_frames().len() <= VPN_RANGE,
    ensures
        final(mem).wf(),
        final(mem).frame_end() == old(mem).frame_end(),
        final(mem).bytes().len() == old(mem).bytes().len(),
        frames_in_memory(old(page_table)@, old(mem).bytes().len()) ==> frames_in_memory(
            final(page_table)@,
            final(mem).bytes().len(),
        ),
        ({
            let sv = first_vpn(start);
            let n = pages_of(len as nat);
            let free = old(mem).free_frames();
            if start % PAGE_SIZE != 0 || prot_invalid(prot) {
                &&& r == -1
                &&& final(page_table)@ == old(page_table)@
                &&& *final(mem) == *old(mem)
            } else if len == 0 {
                &&& r == 0
                &&& final(page_table)@ == old(page_table)@
                &&& *final(mem) == *old(mem)
            } else if range_has_mapped(old(page_table)@, sv, n) {
                &&& r == -1
                &&& final(page_table)@ == old(page_table)@
                &&& *final(mem) == *old(mem)
            } else if n <= free.len() {
                &&& r == 0
                &&& final(page_table)@ == map_range(old(page_table)@, sv, n, free, mmap_flags(prot))
                &&& final(mem).free_frames() == free.skip(n as int)
                &&& final(mem).bytes() == zero_frames(old(mem).bytes(), free.take(n as int))
            } else {
                &&& r == -1
                &&& final(page_table)@ == clear_range(old(page_table)@, sv, free.len())
                &&& final(mem).free_frames() == Seq::<usize>::empty()
                &&& final(mem).bytes() == zero_frames(old(mem).bytes(), free)
            }
        }),
{
    proof {
        lemma_prot_bits(prot);
    }
    if start % PAGE_SIZE != 0 {
        return -1;
    }
    if prot & !0x7 != 0 {
        return -1;
    }
    if prot & 0x7 == 0 {
        return -1;
    }
    if len == 0 {
        return 0;
    }
    assert(!prot_invalid(prot));
    assert(mmap_args_ok(start, len, prot));
    assert(len <= usize::MAX - (PAGE_SIZE - 1));
    let page_count = (len + (PAGE_SIZE - 1)) / PAGE_SIZE;
    assert(page_count == pages_of(len as nat));
    let start_vpn = floor(virt_addr(start));
    let ghost sv = start_vpn as nat;
    assert(sv == first_vpn(start));
    let ghost old_pt = page_table@;
    let ghost free = mem.free_frames();
    proof {
        lemma_first_vpn(start);
        assert(page_count <= usize::MAX / 4096 + 1) by (nonlinear_arith)
            requires
                len <= usize::MAX - (PAGE_SIZE - 1),
                page_count == (len + PAGE_SIZE - 1) as int / PAGE_SIZE as int,
        ;
        assert(start_vpn + page_count <= usize::MAX) by (nonlinear_arith)
            requires
                start_vpn < VPN_RANGE,
                page_count <= usize::MAX / 4096 + 1,
                usize::MAX == 0xffff_ffff || usize::MAX == 0xffff_ffff_ffff_ffff,
        ;
        mem.lemma_wf();
    }
    // no page of the range may be mapped yet
    let mut i: usize = 0;
    while i < page_count
        invariant
            i <= page_count,
            start_vpn + page_count <= usize::MAX,
            sv == start_vpn,
            page_table@ == old_pt,
            old_pt == old(page_table)@,
            *mem == *old(mem),
            forall|k: nat| k < i ==> !#[trigger] is_mapped(old_pt, vpn_at(sv, k)),
        decreases page_count - i,
    {
        let vpn = virt_page_num(start_vpn + i);
        if let Some(pte) = page_table.translate(vpn) {
            if pte.is_valid() {
                assert(is_mapped(old_pt, vpn_at(sv, i as nat)));
                return -1;
            }
        }
        i = i + 1;
    }
    assert(!range_has_mapped(old_pt, sv, page_count as nat));
    let ghost flags_v = mmap_flags(prot);
    // map every page to a fresh frame
    let mut i: usize = 0;
    while i < page_count
        invariant
            i <= page_count,
            start_vpn + page_count <= usize::MAX,
            sv == start_vpn,
            sv < VPN_RANGE,
            page_count == pages_of(len as nat),
            flags_v == mmap_flags(prot),
            page_count <= VPN_RANGE || free.len() <= VPN_RANGE,
            i <= free.len(),
            free == old(mem).free_frames(),
            free.no_duplicates(),
            forall|k: int| 0 <= k < free.len() ==> #[trigger] free[k] < old(mem).frame_end(),
            old(mem).frame_end() * PAGE_SIZE <= old(mem).bytes().len(),
            old(mem).bytes().len() <= usize::MAX,
            forall|k: nat| k < page_count ==> !#[trigger] is_mapped(old_pt, vpn_at(sv, k)),
            old_pt == old(page_table)@,
            page_table@ == map_range(old_pt, sv, i as nat, free, flags_v),
            mem.wf(),
            mem.frame_end() == old(mem).frame_end(),
            mem.bytes().len() == old(mem).bytes().len(),
            mem.free_frames() == free.skip(i as int),
            mem.bytes() == zero_frames(old(mem).bytes(), free.take(i as int)),
        decreases page_count - i,
    {
        let vpn = virt_page_num(start_vpn + i);
        let ghost pt_before = page_table@;
        match mem.frame_alloc() {
            Some(ppn) => {
                proof {
                    assert(i < free.len());
                    assert(i < VPN_RANGE);
                    lemma_vpn_at(sv, i as nat);
                    assert(vpn == vpn_at(sv, i as nat));
                    assert(!in_page_range(sv, i as nat, vpn));
                    assert(!is_mapped(old_pt, vpn_at(sv, i as nat)));
                    assert(page_table@.contains_key(vpn) == old_pt.contains_key(vpn));
                    assert(page_table@.contains_key(vpn) ==> page_table@[vpn] == old_pt[vpn]);
                    assert(ppn == free[i as int]);
                    let fe = old(mem).frame_end();
                    assert((ppn + 1) * PAGE_SIZE <= fe * PAGE_SIZE) by (nonlinear_arith)
                        requires
                            ppn < fe,
                    ;
                }
                let mut flags = PTE_V | PTE_U;
                let ghost f0 = flags;
                if prot & 0x1 != 0 {
                    flags = flags | PTE_R;
                }
                let ghost f1 = flags;
                if prot & 0x2 != 0 {
                    flags = flags | PTE_W;
                }
                let ghost f2 = flags;
                if prot & 0x4 != 0 {
                    flags = flags | PTE_X;
                }
                proof {
                    lemma_u8_bits(f0);
                    lemma_u8_bits(f1);
                    lemma_u8_bits(f2);
                    lemma_u8_bits(flags);
                    assert(flags == mmap_flags(prot));
                    assert(with_valid(flags) == flags);
                }
                page_table.map(vpn, ppn, flags);
                proof {
                    lemma_map_range_step(old_pt, sv, i as nat, free, flags_v);
                    assert(free.take(i as int + 1).drop_last() =~= free.take(i as int));
                    assert(free.skip(i as int).drop_first() =~= free.skip(i as int + 1));
                }
            },
            None => {
                proof {
                    assert(i == free.len());
                }
                // out of frames: undo the mappings made so far
                let mut j: usize = 0;
                while j < i
                    invariant
                        j <= i,
                        i == free.len(),
                        i < page_count,
                        i <= VPN_RANGE,
                        start_vpn + page_count <= usize::MAX,
                        sv == start_vpn,
                        sv < VPN_RANGE,
                        flags_v == mmap_flags(prot),
                        page_table@ == clear_range(map_range(old_pt, sv, i as nat, free, flags_v), sv, j as nat),
                    decreases i - j,
                {
                    let vpn = virt_page_num(start_vpn + j);
                    proof {
                        lemma_vpn_at(sv, j as nat);
                        assert(vpn == vpn_at(sv, j as nat));
                        assert(in_page_range(sv, i as nat, vpn));
                        assert(!in_page_range(sv, j as nat, vpn));
                        assert(is_mapped(page_table@, vpn));
                    }
                    if let Some(pte) = page_table.translate(vpn) {
                        if pte.is_valid() {
                            page_table.unmap(vpn);
                        }
                    }
                    proof {
                        lemma_clear_range_step(map_range(old_pt, sv, i as nat, free, flags_v), sv, j as nat);
                    }
                    j = j + 1;
                }
                proof {
                    lemma_clear_map_range(old_pt, sv, i as nat, free, flags_v);
                    assert(free.take(i as int) =~= free);
                    assert(free.skip(i as int) =~= Seq::<usize>::empty());
                }
                return -1;
            },
        }
        i = i + 1;
    }
    proof {
        assert(page_count <= free.len());
    }
    0
}

/// Unmaps `len` bytes from the page-aligned address `start` in the page table
/// of the current task; the frames are not given back.
///
/// Returns -1 when `start` is not page-aligned or some page of the range is
/// not mapped (then nothing changes); returns 0 at once when `len` is 0.
#[verifier::loop_isolation(false)]
pub fn sys_munmap(page_table: &mut PageTable, start: usize, len: usize) -> (r: isize)
    requires
        // the page count `(len + PAGE_SIZE - 1) / PAGE_SIZE` must not overflow
        start % PAGE_SIZE == 0 && len != 0 ==> len <= usize::MAX - (PAGE_SIZE - 1),
        // a range of more pages than Sv39 has would unmap one page twice
        start % PAGE_SIZE == 0 && len != 0 && pages_of(len as nat) > VPN_RANGE ==> !range_all_mapped(
            old(page_table)@,
            first_vpn(start),
            pages_of(len as nat),
        ),
    ensures
        forall|mem_len: nat|
            frames_in_memory(old(page_table)@, mem_len) && mem_len >= PAGE_SIZE ==> #[trigger] frames_in_memory(
                final(page_table)@,
                mem_len,
            ),
        ({
            let sv = first_vpn(start);
            let n = pages_of(len as nat);
            if start % PAGE_SIZE != 0 {
                r == -1 && final(page_table)@ == old(page_table)@
            } else if len == 0 {
                r == 0 && final(page_table)@ == old(page_table)@
            } else if !range_all_mapped(old(page_table)@, sv, n) {
                r == -1 && final(page_table)@ == old(page_table)@
            } else {
                r == 0 && final(page_table)@ == clear_range(old(page_table)@, sv, n)
            }
        }),
{
    if start % PAGE_SIZE != 0 {
        return -1;
    }
    if len == 0 {
        return 0;
    }
    let page_count = (len + (PAGE_SIZE - 1)) / PAGE_SIZE;
    assert(page_count == pages_of(len as nat));
    let start_vpn = floor(virt_addr(start));
    let ghost sv = start_vpn as nat;
    let ghost old_pt = page_table@;
    proof {
        lemma_first_vpn(start);
        assert(page_count <= usize::MAX / 4096 + 1) by (nonlinear_arith)
            requires
                len <= usize::MAX - (PAGE_SIZE - 1),
                page_count == (len + PAGE_SIZE - 1) as int / PAGE_SIZE as int,
        ;
        assert(start_vpn + page_count <= usize::MAX) by (nonlinear_arith)
            requires
                start_vpn < VPN_RANGE,
                page_count <= usize::MAX / 4096 + 1,
                usize::MAX == 0xffff_ffff || usize::MAX == 0xffff_ffff_ffff_ffff,
        ;
    }
    // every page of the range must be mapped
    let mut all_mapped = true;
    let mut i: usize = 0;
    while all_mapped && i < page_count
        invariant
            i <= page_count,
            page_table@ == old_pt,
            forall|k: nat| k < i ==> #[trigger] is_mapped(old_pt, vpn_at(sv, k)),
            !all_mapped ==> i < page_count && !is_mapped(old_pt, vpn_at(sv, i as nat)),
        decreases page_count - i + (if all_mapped { 1int } else { 0int }),
    {
        let vpn = virt_page_num(start_vpn + i);
        let mapped = match page_table.translate(vpn) {
            Some(pte) => pte.is_valid(),
            None => false,
        };
        if mapped {
            i = i + 1;
        } else {
            all_mapped = false;
        }
    }
    if !all_mapped {
        return -1;
    }
    assert(range_all_mapped(old_pt, sv, page_count as nat));
    proof {
        assert(page_count <= VPN_RANGE);
    }
    let mut i: usize = 0;
    while i < page_count
        invariant
            i <= page_count,
            page_count <= VPN_RANGE,
            sv < VPN_RANGE,
            page_table@ == clear_range(old_pt, sv, i as nat),
            forall|k: nat| k < page_count ==> #[trigger] is_mapped(old_pt, vpn_at(sv, k)),
        decreases page_count - i,
    {
        let vpn = virt_page_num(start_vpn + i);
        proof {
            lemma_clear_range_step(old_pt, sv, i as nat);
            assert(is_mapped(old_pt, vpn_at(sv, i as nat)));
        }
        page_table.unmap(vpn);
        i = i + 1;
    }
    proof {
        assert forall|mem_len: nat|
            frames_in_memory(old_pt, mem_len) && mem_len >= PAGE_SIZE implies #[trigger] frames_in_memory(
                page_table@,
                mem_len,
            ) by {
            assert forall|vpn: usize| #[trigger] page_table@.contains_key(vpn) implies (page_table@[vpn].ppn + 1)
                * PAGE_SIZE <= mem_len by {
                if !in_page_range(sv, page_count as nat, vpn) {
                    assert(old_pt.contains_key(vpn));
                }
            }
        }
    }
    0
}

/// A time: whole seconds and the microseconds past them.
#[derive(Debug, Clone, Copy)]
pub struct TimeVal {
    pub sec: usize,
    pub usec: usize,
}

/// The number of bytes of a `usize`.
pub open spec fn word_bytes() -> nat {
    (usize::BITS / 8) as nat
}

/// The `n` low bytes of `x`, least significant first.
pub open spec fn le_bytes(x: nat, n: nat) -> Seq<u8>
    decreases n,
{
    if n == 0 {
        Seq::empty()
    } else {
        seq![(x % 256) as u8] + le_bytes(x / 256, (n - 1) as nat)
    }
}

/// The in-memory layout of a time: `sec`, then `usec`, each a little-endian
/// `usize`.
pub open spec fn timeval_bytes(tv: TimeVal) -> Seq<u8> {
    le_bytes(tv.sec as nat, word_bytes()) + le_bytes(tv.usec as nat, word_bytes())
}

/// The time `us` microseconds after the clock's origin.
pub open spec fn timeval_of_us(us: usize) -> TimeVal {
    TimeVal { sec: us / 1_000_000, usec: us % 1_000_000 }
}

/// The low `n` bytes of `x`, least significant first.
fn le_bytes_of(x: usize, n: usize) -> (r: Vec<u8>)
    ensures
        r@ == le_bytes(x as nat, n as nat),
{
    let mut out: Vec<u8> = Vec::new();
    let mut v = x;
    let mut k: usize = 0;
    while k < n
        invariant
            k <= n,
            out@ + le_bytes(v as nat, (n - k) as nat) == le_bytes(x as nat, n as nat),
        decreases n - k,
    {
        proof {
            assert(le_bytes(v as nat, (n - k) as nat) == seq![(v % 256) as u8] + le_bytes(
                (v / 256) as nat,
                (n - k - 1) as nat,
            ));
            assert(out@.push((v % 256) as u8) + le_bytes((v / 256) as nat, (n - k - 1) as nat) =~= out@
                + le_bytes(v as nat, (n - k) as nat));
        }
        out.push((v % 256) as u8);
        v = v / 256;
        k = k + 1;
    }
    assert(out@ + le_bytes(v as nat, 0) =~= out@);
    out
}

impl TimeVal {
    /// The bytes of the time as it is laid out in memory.
    pub fn to_bytes(&self) -> (r: Vec<u8>)
        ensures
            r@ == timeval_bytes(*self),
            r@.len() == 2 * word_bytes(),
    {
        let word = (usize::BITS / 8) as usize;
        let mut r = le_bytes_of(self.sec, word);
        let mut u = le_bytes_of(self.usec, word);
        proof {
            lemma_le_bytes_len(self.sec as nat, word as nat);
            lemma_le_bytes_len(self.usec as nat, word as nat);
        }
        r.append(&mut u);
        r
    }
}

proof fn lemma_le_bytes_len(x: nat, n: nat)
    ensures
        le_bytes(x, n).len() == n,
    decreases n,
{
    if n > 0 {
        lemma_le_bytes_len(x / 256, (n - 1) as nat);
    }
}

/// Writes the time `us` microseconds after the clock's origin, as a
/// [`TimeVal`], to user address `ts` in the address space of the current task,
/// whatever the permissions of its pages, and returns 0. The time may straddle
/// two pages.
pub fn sys_get_time(page_table: &PageTable, mem: &mut PhysMemory, ts: usize, _tz: usize, us: usize) -> (r: isize)
    requires
        old(mem).wf(),
        ts + 2 * word_bytes() < VA_RANGE,
        ts + 2 * word_bytes() <= usize::MAX,
        pages_present(page_table@, ts as int, (2 * word_bytes()) as int),
        pages_in_memory(page_table@, ts as int, (2 * word_bytes()) as int, old(mem).bytes().len()),
    ensures
        r == 0,
        final(mem).wf(),
        final(mem).free_frames() == old(mem).free_frames(),
        final(mem).frame_end() == old(mem).frame_end(),
        final(mem).bytes() == write_seq(
            old(mem).bytes(),
            user_pas(page_table@, ts as int, 2 * word_bytes()),
            timeval_bytes(timeval_of_us(us)),
        ),
        // reading the time back through the page table gives what was written
        forall|k: int|
            0 <= k < 2 * word_bytes() ==> #[trigger] final(mem).bytes()[pa_of(page_table@, ts + k)]
                == timeval_bytes(timeval_of_us(us))[k],
{
    let sec = us / 1_000_000;
    let usec = us % 1_000_000;
    let time_val = TimeVal { sec, usec };
    let bytes = time_val.to_bytes();
    let size = bytes.len();
    let buffers = translated_byte_buffer(page_table, ts, size);
    proof {
        let n = (2 * word_bytes()) as nat;
        lemma_user_pas_in_memory(page_table@, ts as int, n, old(mem).bytes().len());
    }
    copy_into_ranges(mem, &buffers, &bytes);
    proof {
        let n = (2 * word_bytes()) as nat;
        let addrs = user_pas(page_table@, ts as int, n);
        lemma_user_pas_distinct(page_table@, ts as int, n);
        lemma_write_seq(old(mem).bytes(), addrs, bytes@);
        assert forall|k: int| 0 <= k < n implies #[trigger] mem.bytes()[pa_of(page_table@, ts + k)]
            == timeval_bytes(timeval_of_us(us))[k] by {
            assert(addrs[k] == pa_of(page_table@, ts + k));
        }
    }
    0
}

/// The page that `sys_trace` looks up for address `addr`.
pub open spec fn trace_vpn(addr: usize) -> usize {
    first_vpn(addr) as usize
}

/// The page of `addr` has an entry that is readable from user mode.
pub open spec fn trace_can_read(m: Map<usize, PageTableEntry>, addr: usize) -> bool {
    match spec_translate(m, trace_vpn(addr)) {
        Some(pte) => pte.spec_readable() && pte.spec_usermode(),
        None => false,
    }
}

/// The page of `addr` has an entry that is writable from user mode.
pub open spec fn trace_can_write(m: Map<usize, PageTableEntry>, addr: usize) -> bool {
    match spec_translate(m, trace_vpn(addr)) {
        Some(pte) => pte.spec_writable() && pte.spec_usermode(),
        None => false,
    }
}

/// What trace request 0 returns for address `addr` of a task whose page
/// table is `m`, with memory `bytes`: the byte there, or -1 when its page is
/// not readable from user mode.
pub open spec fn trace_read(m: Map<usize, PageTableEntry>, bytes: Seq<u8>, addr: usize) -> isize {
    if trace_can_read(m, addr) {
        bytes[pa_of(m, addr as int)] as isize
    } else {
        -1isize
    }
}

/// The memory after trace request 1 writes the low byte of `data` at the
/// user-writable address `addr`.
pub open spec fn trace_write(m: Map<usize, PageTableEntry>, bytes: Seq<u8>, addr: usize, data: usize) -> Seq<u8> {
    bytes.update(pa_of(m, addr as int), data as u8)
}

/// Traces the current task. Request 0 reads the byte at user address `addr`
/// and returns it; request 1 writes the low byte of `data` there and returns
/// 0; either returns -1 when the page of `addr` is not readable (resp.
/// writable) from user mode. Request 2 returns how many times the current
/// task has made system call `addr`. Any other request returns -1.
pub fn sys_trace(task: &TaskControlBlock, mem: &mut PhysMemory, trace_request: usize, addr: usize, data: usize) -> (r: isize)
    requires
        old(mem).wf(),
        task.syscall_times@.len() == MAX_SYSCALL_NUM,
        // the byte after `addr` must still be an Sv39 address, and the page's
        // frame must lie in memory
        (trace_request == 0 && trace_can_read(task.page_table@, addr)) || (trace_request == 1
            && trace_can_write(task.page_table@, addr)) ==> addr + 1 < VA_RANGE && addr + 1 <= usize::MAX
            && frame_in_memory(task.page_table@[trace_vpn(addr)].ppn, old(mem).bytes().len()),
    ensures
        final(mem).wf(),
        final(mem).free_frames() == old(mem).free_frames(),
        final(mem).frame_end() == old(mem).frame_end(),
        trace_request == 0 ==> {
            &&& *final(mem) == *old(mem)
            &&& r == trace_read(task.page_table@, old(mem).bytes(), addr)
        },
        trace_request == 1 ==> if trace_can_write(task.page_table@, addr) {
            &&& r == 0
            &&& final(mem).bytes() == trace_write(task.page_table@, old(mem).bytes(), addr, data)
        } else {
            r == -1 && *final(mem) == *old(mem)
        },
        trace_request == 2 ==> r == syscall_count(task.syscall_times@, addr) as isize && *final(mem) == *old(mem),
        trace_request > 2 ==> r == -1 && *final(mem) == *old(mem),
{
    let page_table = &task.page_table;
    match trace_request {
        0 => {
            let vpn = floor(virt_addr(addr));
            match page_table.translate(vpn) {
                Some(pte) => {
                    if !pte.readable() || !pte.usermode() {
                        return -1;
                    }
                    proof {
                        lemma_first_vpn(addr);
                        vstd::arithmetic::div_mod::lemma_small_mod(addr as nat, VA_RANGE as nat);
                    }
                    let buffers = translated_byte_buffer(page_table, addr, 1);
                    proof {
                        if buffers@.len() == 0 {
                            assert(flatten(buffers@) =~= Seq::<int>::empty());
                            assert(user_pas(page_table@, addr as int, 1).len() == 1);
                        }
                    }
                    if buffers.len() == 0 {
                        return -1;
                    }
                    proof {
                        lemma_flatten_first(buffers@);
                        assert(addr as int / PAGE_SIZE as int == trace_vpn(addr));
                        lemma_user_pas_in_memory(page_table@, addr as int, 1, mem.bytes().len());
                        assert(user_pas(page_table@, addr as int, 1)[0] == pa_of(page_table@, addr as int));
                    }
                    mem.read_byte(buffers[0].start) as isize
                },
                None => -1,
            }
        },
        1 => {
            let vpn = floor(virt_addr(addr));
            match page_table.translate(vpn) {
                Some(pte) => {
                    if !pte.writable() || !pte.usermode() {
                        return -1;
                    }
                    proof {
                        lemma_first_vpn(addr);
                        vstd::arithmetic::div_mod::lemma_small_mod(addr as nat, VA_RANGE as nat);
                    }
                    let buffers = translated_byte_buffer(page_table, addr, 1);
                    proof {
                        if buffers@.len() == 0 {
                            assert(flatten(buffers@) =~= Seq::<int>::empty());
                            assert(user_pas(page_table@, addr as int, 1).len() == 1);
                        }
                    }
                    if buffers.len() == 0 {
                        return -1;
                    }
                    proof {
                        lemma_flatten_first(buffers@);
                        assert(addr as int / PAGE_SIZE as int == trace_vpn(addr));
                        lemma_user_pas_in_memory(page_table@, addr as int, 1, mem.bytes().len());
                        assert(user_pas(page_table@, addr as int, 1)[0] == pa_of(page_table@, addr as int));
                    }
                    mem.write_byte(buffers[0].start, data as u8);
                    0
                },
                None => -1,
            }
        },
        2 => {
            let syscall_id = addr;
            task.get_syscall_cnt(syscall_id) as isize
        },
        _ => -1,
    }
}

/// The current task exits: it is marked exited and the next task runs.
/// Returns the exited task (the call does not return to it).
pub fn sys_exit(processor: &mut Processor, manager: &mut TaskManager, _exit_code: i32) -> (r: TaskControlBlock)
    requires
        old(processor).current is Some,
        fetch_ok(old(manager)@),
    ensures
        r == with_status(old(processor).current->0, TaskStatus::Exited),
        scheduled(old(manager)@, final(processor).current, final(manager)@),
{
    exit_current_and_run_next(processor, manager)
}

/// The current task gives up the processor: it goes, ready, to the back of
/// the ready queue, and the next task runs. Returns 0.
pub fn sys_yield(processor: &mut Processor, manager: &mut TaskManager) -> (r: isize)
    requires
        old(processor).current is Some,
        fetch_ok(old(manager)@.push(with_status(old(processor).current->0, TaskStatus::Ready))),
    ensures
        r == 0,
        scheduled(
            old(manager)@.push(with_status(old(processor).current->0, TaskStatus::Ready)),
            final(processor).current,
            final(manager)@,
        ),
{
    suspend_current_and_run_next(processor, manager);
    0
}

/// Moves the program break of the current task by `size` bytes. Returns the
/// old break, or -1 (changing nothing) when the new break would lie below the
/// start of the heap.
pub fn sys_sbrk(task: &mut TaskControlBlock, mem: &mut PhysMemory, size: i32) -> (r: isize)
    requires
        heap_wf(*old(task)),
        old(mem).wf(),
        old(task).program_brk + size <= isize::MAX,
        old(task).program_brk <= isize::MAX,
        brk_change_ok(*old(task), *old(mem), size),
    ensures
        heap_wf(*final(task)),
        same_task_but_heap(*old(task), *final(task)),
        final(mem).wf(),
        final(mem).frame_end() == old(mem).frame_end(),
        frames_in_memory(old(task).page_table@, old(mem).bytes().len()) ==> frames_in_memory(
            final(task).page_table@,
            final(mem).bytes().len(),
        ),
        moved_brk(*old(task), size) < old(task).heap_bottom ==> r == -1,
        moved_brk(*old(task), size) >= old(task).heap_bottom ==> r == old(task).program_brk,
        brk_effect(*old(task), *old(mem), size, *final(task), *final(mem)),
{
    if let Some(old_brk) = task.change_program_brk(mem, size) {
        old_brk as isize
    } else {
        -1
    }
}

/// mmap and munmap cover the fewest whole pages that hold `len` bytes: the
/// pages hold all `len` bytes, and one page fewer would not.
pub proof fn law_page_count_covers_length(len: nat)
    ensures
        len <= pages_of(len) * 0x1000,
        len > 0 ==> (pages_of(len) - 1) * 0x1000 < len,
        len == 0 ==> pages_of(len) == 0,
{
    let n = pages_of(len);
    assert(n == (len + 0xfff) / 0x1000);
    assert(len <= n * 0x1000 && (len > 0 ==> (n - 1) * 0x1000 < len)) by (nonlinear_arith)
        requires
            n == (len + 0xfff) / 0x1000,
    ;
}

/// The time that `sys_get_time` writes for a clock reading of `us`
/// microseconds splits it into whole seconds and the microseconds left over.
pub proof fn law_time_splits_microseconds(us: usize)
    ensures
        timeval_of_us(us).sec * 1_000_000 + timeval_of_us(us).usec == us,
        timeval_of_us(us).usec < 1_000_000,
{
}

/// mmap refuses a protection exactly when it has a bit outside read, write
/// and execute (0x7) or none of these three: every `prot` from 1 to 7 is
/// accepted, so a page-aligned request of a nonzero length with such a
/// protection goes on to the page table.
pub proof fn law_mmap_prot_accepted(start: usize, len: usize, prot: usize)
    ensures
        prot_invalid(prot) <==> (prot & !0x7usize != 0 || prot & 0x7usize == 0),
        1 <= prot <= 7 ==> !prot_invalid(prot),
        start % 0x1000 == 0 && len != 0 && 1 <= prot <= 7 ==> mmap_args_ok(start, len, prot),
{
    lemma_prot_bits(prot);
}

/// The entry of a page that mmap maps has the bits V (0x1) and U (0x10) set,
/// R (0x2), W (0x4) and X (0x8) set exactly as bits 0x1, 0x2 and 0x4 of `prot`
/// ask, and no other bit.
pub proof fn law_mmap_flag_bits(prot: usize)
    ensures
        mmap_flags(prot) & 0x1u8 != 0,
        mmap_flags(prot) & 0x10u8 != 0,
        (mmap_flags(prot) & 0x2u8 != 0) == (prot & 0x1usize != 0),
        (mmap_flags(prot) & 0x4u8 != 0) == (prot & 0x2usize != 0),
        (mmap_flags(prot) & 0x8u8 != 0) == (prot & 0x4usize != 0),
        mmap_flags(prot) & 0xe0u8 == 0,
{
    let f = mmap_flags(prot);
    law_mmap_permissions(prot, 0);
    lemma_u8_bits(f);
    lemma_prot_bits(prot);
    assert(f <= 0x1f);
    assert(f & 0xe0u8 == 0u8) by (bit_vector)
        requires
            f <= 0x1fu8,
    ;
}

/// Trace requests 0 and 1 go through the entry of the Sv39 page `v` of the
/// address (bits 12..39): a read is refused (-1) unless the slot of `v`
/// exists with bits R (0x2) and U (0x10) set, a write unless it exists with
/// bits W (0x4) and U set; an Sv39 address reads, and writes the low byte of
/// `data` to, the byte at physical address `ppn * 4096 + off` of the entry's
/// frame, `off` being the address's offset in its page (bits 0..12).
pub proof fn law_trace_goes_through_user_entry(
    m: Map<usize, PageTableEntry>,
    bytes: Seq<u8>,
    addr: usize,
    data: usize,
)
    ensures
        ({
            let v = ((addr as int % 0x80_0000_0000) / 0x1000) as usize;
            let off = addr as int % 0x1000;
            let readable = m.contains_key(v) && m[v].flags & 0x2u8 != 0 && m[v].flags & 0x10u8 != 0;
            let writable = m.contains_key(v) && m[v].flags & 0x4u8 != 0 && m[v].flags & 0x10u8 != 0;
            &&& trace_can_read(m, addr) <==> readable
            &&& trace_can_write(m, addr) <==> writable
            &&& !readable ==> trace_read(m, bytes, addr) == -1
            &&& readable && addr < 0x80_0000_0000 ==> trace_read(m, bytes, addr) == bytes[m[v].ppn * 0x1000
                + off] as isize
            &&& addr < 0x80_0000_0000 ==> trace_write(m, bytes, addr, data) == bytes.update(
                m[v].ppn * 0x1000 + off,
                data as u8,
            )
        }),
{
    assert(VA_RANGE == 0x80_0000_0000);
    if m.contains_key(trace_vpn(addr)) {
        lemma_u8_bits(m[trace_vpn(addr)].flags);
    }
    if addr < 0x80_0000_0000 {
        vstd::arithmetic::div_mod::lemma_small_mod(addr as nat, 0x80_0000_0000);
    }
}

/// Every page that mmap maps is valid, user-accessible, and readable,
/// writable and executable exactly as bits 0, 1 and 2 of the protection ask.
pub proof fn law_mmap_permissions(prot: usize, ppn: usize)
    ensures
        ({
            let e = PageTableEntry { ppn, flags: mmap_flags(prot) };
            &&& e.spec_is_valid()
            &&& e.spec_usermode()
            &&& e.spec_readable() == (prot % 2 == 1)
            &&& e.spec_writable() == ((prot / 2) % 2 == 1)
            &&& e.spec_executable() == ((prot / 4) % 2 == 1)
        }),
{
    lemma_prot_bits(prot);
    let x = prot % 8;
    assert(0 <= x < 8);
    assert(x == 0 || x == 1 || x == 2 || x == 3 || x == 4 || x == 5 || x == 6 || x == 7);
}

/// Clearing the slots of pages that were not mapped leaves the set of mapped
/// pages, and their entries, as they were: what a failed mmap leaves behind.
pub proof fn law_failed_mmap_keeps_mappings(m: Map<usize, PageTableEntry>, sv: nat, n: nat, k: nat)
    requires
        sv < VPN_RANGE,
        k <= n,
        !range_has_mapped(m, sv, n),
    ensures
        forall|v: usize| #[trigger] is_mapped(clear_range(m, sv, k), v) == is_mapped(m, v),
        forall|v: usize| is_mapped(m, v) ==> #[trigger] clear_range(m, sv, k)[v] == m[v],
{
    let c = clear_range(m, sv, k);
    assert forall|v: usize| #[trigger] is_mapped(c, v) == is_mapped(m, v) by {
        if in_page_range(sv, k, v) {
            lemma_range_offset(sv, v);
            let i = range_offset(sv, v) as nat;
            assert(!is_mapped(m, vpn_at(sv, i)));
            assert(!PageTableEntry::spec_empty().spec_is_valid()) by {
                assert(0u8 & 1u8 == 0u8) by (bit_vector);
            }
        }
    }
    assert forall|v: usize| is_mapped(m, v) implies #[trigger] c[v] == m[v] by {
        if in_page_range(sv, k, v) {
            lemma_range_offset(sv, v);
            assert(!is_mapped(m, vpn_at(sv, range_offset(sv, v) as nat)));
        }
    }
}

/// munmap undoes mmap: right after mmap has mapped a range, the range has
/// at most `VPN_RANGE` pages and every page of it is mapped (so munmap of the
/// same range may be called and succeeds), and munmap leaves exactly the pages
/// mapped before the mmap, with their entries.
pub proof fn law_munmap_undoes_mmap(
    m: Map<usize, PageTableEntry>,
    start: usize,
    len: usize,
    prot: usize,
    free: Seq<usize>,
)
    requires
        mmap_args_ok(start, len, prot),
        !range_has_mapped(m, first_vpn(start), pages_of(len as nat)),
        pages_of(len as nat) <= free.len(),
        // what mmap required of the call
        pages_of(len as nat) > VPN_RANGE ==> free.len() <= VPN_RANGE,
    ensures
        ({
            let sv = first_vpn(start);
            let n = pages_of(len as nat);
            let m1 = map_range(m, sv, n, free, mmap_flags(prot));
            &&& n <= VPN_RANGE
            &&& range_all_mapped(m1, sv, n)
            &&& forall|v: usize| #[trigger] is_mapped(clear_range(m1, sv, n), v) == is_mapped(m, v)
            &&& forall|v: usize| is_mapped(m, v) ==> #[trigger] clear_range(m1, sv, n)[v] == m[v]
        }),
{
    let sv = first_vpn(start);
    let n = pages_of(len as nat);
    let fl = mmap_flags(prot);
    let m1 = map_range(m, sv, n, free, fl);
    lemma_first_vpn(start);
    assert forall|i: nat| i < n implies #[trigger] is_mapped(m1, vpn_at(sv, i)) by {
        lemma_vpn_at(sv, i);
    }
    lemma_clear_map_range(m, sv, n, free, fl);
    law_failed_mmap_keeps_mappings(m, sv, n, n);
}

/// Memory that mmap has just mapped reads as zeros: every byte of a mapped
/// page reaches a byte of a frame that mmap zeroed.
pub proof fn law_mapped_memory_reads_zero(
    m: Map<usize, PageTableEntry>,
    bytes: Seq<u8>,
    free: Seq<usize>,
    sv: nat,
    n: nat,
    flags: u8,
    addr: int,
)
    requires
        sv < VPN_RANGE,
        n <= free.len(),
        0 <= addr,
        addr / PAGE_SIZE as int <= usize::MAX,
        in_page_range(sv, n, (addr / PAGE_SIZE as int) as usize),
        forall|k: int| 0 <= k < n ==> (#[trigger] free[k] + 1) * PAGE_SIZE <= bytes.len(),
    ensures
        zero_frames(bytes, free.take(n as int))[pa_of(map_range(m, sv, n, free, flags), addr)] == 0,
{
    let ps = PAGE_SIZE as int;
    let v = (addr / ps) as usize;
    lemma_range_offset(sv, v);
    let k = range_offset(sv, v);
    let f = free[k];
    let m1 = map_range(m, sv, n, free, flags);
    assert(m1[v].ppn == f);
    let off = addr % ps;
    assert(pa_of(m1, addr) == f * ps + off);
    assert(f * ps <= f * ps + off < (f + 1) * ps) by (nonlinear_arith)
        requires
            0 <= off < ps,
            0 <= f,
    ;
    assert((f + 1) * PAGE_SIZE <= bytes.len());
    lemma_zero_frames(bytes, free.take(n as int));
    assert(free.take(n as int)[k] == f);
}

/// A byte that trace request 1 writes is the byte that trace request 0 then
/// reads from the same address, when the page is readable too; writing
/// leaves every other byte as it was.
pub proof fn law_trace_reads_back_write(m: Map<usize, PageTableEntry>, bytes: Seq<u8>, addr: usize, data: usize, other: usize)
    requires
        trace_can_read(m, addr),
        0 <= pa_of(m, addr as int) < bytes.len(),
    ensures
        trace_read(m, trace_write(m, bytes, addr, data), addr) == (data as u8) as isize,
        pa_of(m, other as int) != pa_of(m, addr as int) && 0 <= pa_of(m, other as int) < bytes.len() ==> trace_read(
            m,
            trace_write(m, bytes, addr, data),
            other,
        ) == trace_read(m, bytes, other),
{
}

/// A second mmap of a range that mmap has just mapped is refused, and
/// changes nothing: the first page of the range is mapped.
pub proof fn law_mmap_twice_refused(
    m: Map<usize, PageTableEntry>,
    start: usize,
    len: usize,
    prot: usize,
    free: Seq<usize>,
)
    requires
        mmap_args_ok(start, len, prot),
        pages_of(len as nat) <= free.len(),
    ensures
        range_has_mapped(
            map_range(m, first_vpn(start), pages_of(len as nat), free, mmap_flags(prot)),
            first_vpn(start),
            pages_of(len as nat),
        ),
{
    let sv = first_vpn(start);
    let n = pages_of(len as nat);
    lemma_first_vpn(start);
    lemma_vpn_at(sv, 0);
    assert(n >= 1);
    assert(is_mapped(map_range(m, sv, n, free, mmap_flags(prot)), vpn_at(sv, 0)));
}

/// A second munmap of a range that munmap has just unmapped is refused, and
/// changes nothing: the first page of the range is no longer mapped.
pub proof fn law_munmap_twice_refused(m: Map<usize, PageTableEntry>, start: usize, len: usize)
    requires
        start % PAGE_SIZE == 0,
        len != 0,
    ensures
        !range_all_mapped(clear_range(m, first_vpn(start), pages_of(len as nat)), first_vpn(start), pages_of(len as nat)),
{
    let sv = first_vpn(start);
    let n = pages_of(len as nat);
    lemma_first_vpn(start);
    lemma_vpn_at(sv, 0);
    assert(n >= 1);
    assert(!is_mapped(clear_range(m, sv, n), vpn_at(sv, 0)));
}

/// Later clock readings give later times: the (seconds, microseconds) pair
/// that get_time writes never goes backwards.
pub proof fn law_time_monotone(us1: usize, us2: usize)
    requires
        us1 <= us2,
    ensures
        timeval_of_us(us1).sec < timeval_of_us(us2).sec || (timeval_of_us(us1).sec == timeval_of_us(us2).sec
            && timeval_of_us(us1).usec <= timeval_of_us(us2).usec),
{
    let d = 1_000_000int;
    vstd::arithmetic::div_mod::lemma_div_is_ordered(us1 as int, us2 as int, d);
    vstd::arithmetic::div_mod::lemma_fundamental_div_mod(us1 as int, d);
    vstd::arithmetic::div_mod::lemma_fundamental_div_mod(us2 as int, d);
}

} // verus!
