//! Mapping and unmapping ranges of pages in the address space of the
//! current task.
use vstd::prelude::*;
use crate::config::{PAGE_SIZE, VPN_RANGE};
use crate::mm::address::{virt_page_num, vpn_at, in_page_range, lemma_vpn_at};
use crate::mm::page_table::{
    PageTable, with_valid, is_mapped, range_has_mapped, range_all_mapped, map_range, clear_range,
    frames_in_memory, lemma_map_range_step, lemma_clear_range_step,
};
use crate::mm::memory::{PhysMemory, zero_frames};

verus! {

/// Maps the `num_pages` pages from page `start_vpn` (page numbers wrap at
/// `VPN_RANGE`), each to the next free frame, zeroed, with flags `perm` and
/// the valid bit. Returns -1, changing nothing, when one of them is mapped
/// already; else 0.
#[verifier::loop_isolation(false)]
pub fn map_for_current_task(
    page_table: &mut PageTable,
    mem: &mut PhysMemory,
    start_vpn: usize,
    num_pages: usize,
    perm: u8,
) -> (r: isize)
    requires
        old(mem).wf(),
        start_vpn < VPN_RANGE,
        start_vpn + num_pages <= usize::MAX,
        // mapping needs a frame for every page, and each page only once
        !range_has_mapped(old(page_table)@, start_vpn as nat, num_pages as nat) ==> num_pages
            <= old(mem).free_frames().len() && num_pages <= VPN_RANGE,
    ensures
        final(mem).wf(),
        final(mem).frame_end() == old(mem).frame_end(),
        final(mem).bytes().len() == old(mem).bytes().len(),
        frames_in_memory(old(page_table)@, old(mem).bytes().len()) ==> frames_in_memory(
            final(page_table)@,
            final(mem).bytes().len(),
        ),
        range_has_mapped(old(page_table)@, start_vpn as nat, num_pages as nat) ==> {
            &&& r == -1
            &&& final(page_table)@ == old(page_table)@
            &&& *final(mem) == *old(mem)
        },
        !range_has_mapped(old(page_table)@, start_vpn as nat, num_pages as nat) ==> {
            let free = old(mem).free_frames();
            &&& r == 0
            &&& final(page_table)@ == map_range(old(page_table)@, start_vpn as nat, num_pages as nat, free, with_valid(perm))
            &&& final(mem).free_frames() == free.skip(num_pages as int)
            &&& final(mem).bytes() == zero_frames(old(mem).bytes(), free.take(num_pages as int))
        },
{
    let ghost sv = start_vpn as nat;
    let ghost old_pt = page_table@;
    let ghost free = mem.free_frames();
    let mut i: usize = 0;
    while i < num_pages
        invariant
            i <= num_pages,
            page_table@ == old_pt,
            *mem == *old(mem),
            forall|k: nat| k < i ==> !#[trigger] is_mapped(old_pt, vpn_at(sv, k)),
        decreases num_pages - i,
    {
        let vpn = virt_page_num(start_vpn + i);
        if let Some(pte) = page_table.translate(vpn) {
            if pte.is_valid() {
                assert(is_mapped(old_pt, vpn_at(sv, i as nat)));
                return -1;
            }
        }
        i = i + 1;
    }
    assert(!range_has_mapped(old_pt, sv, num_pages as nat));
    proof {
        mem.lemma_wf();
    }
    let ghost fl = with_valid(perm);
    let mut i: usize = 0;
    while i < num_pages
        invariant
            i <= num_pages,
            num_pages <= free.len(),
            num_pages <= VPN_RANGE,
            free == old(mem).free_frames(),
            fl == with_valid(perm),
            forall|k: int| 0 <= k < free.len() ==> #[trigger] free[k] < old(mem).frame_end(),
            old(mem).frame_end() * PAGE_SIZE <= old(mem).bytes().len(),
            old(mem).bytes().len() <= usize::MAX,
            forall|k: nat| k < num_pages ==> !#[trigger] is_mapped(old_pt, vpn_at(sv, k)),
            page_table@ == map_range(old_pt, sv, i as nat, free, fl),
            mem.wf(),
            mem.frame_end() == old(mem).frame_end(),
            mem.bytes().len() == old(mem).bytes().len(),
            mem.free_frames() == free.skip(i as int),
            mem.bytes() == zero_frames(old(mem).bytes(), free.take(i as int)),
            frames_in_memory(old_pt, old(mem).bytes().len()) ==> frames_in_memory(
                page_table@,
                old(mem).bytes().len(),
            ),
        decreases num_pages - i,
    {
        let vpn = virt_page_num(start_vpn + i);
        let ppn = mem.frame_alloc().unwrap();
        proof {
            lemma_vpn_at(sv, i as nat);
            lemma_map_range_step(old_pt, sv, i as nat, free, fl);
            assert(vpn == vpn_at(sv, i as nat));
            assert(!is_mapped(old_pt, vpn_at(sv, i as nat)));
            assert(ppn == free[i as int]);
            let fe = old(mem).frame_end();
            assert((ppn + 1) * PAGE_SIZE <= fe * PAGE_SIZE) by (nonlinear_arith)
                requires
                    ppn < fe,
            ;
            assert(free.take(i as int + 1).drop_last() =~= free.take(i as int));
            assert(free.skip(i as int).drop_first() =~= free.skip(i as int + 1));
        }
        page_table.map(vpn, ppn, perm);
        i = i + 1;
    }
    0
}

/// Unmaps the `num_pages` pages from page `start_vpn` (page numbers wrap at
/// `VPN_RANGE`). Returns -1, changing nothing, when one of them is not
/// mapped; else 0.
#[verifier::loop_isolation(false)]
pub fn unmap_for_current_task(page_table: &mut PageTable, start_vpn: usize, num_pages: usize) -> (r: isize)
    requires
        start_vpn < VPN_RANGE,
        start_vpn + num_pages <= usize::MAX,
        // each page may be unmapped only once
        range_all_mapped(old(page_table)@, start_vpn as nat, num_pages as nat) ==> num_pages <= VPN_RANGE,
    ensures
        forall|mem_len: nat|
            frames_in_memory(old(page_table)@, mem_len) && mem_len >= PAGE_SIZE ==> #[trigger] frames_in_memory(
                final(page_table)@,
                mem_len,
            ),
        !range_all_mapped(old(page_table)@, start_vpn as nat, num_pages as nat) ==> r == -1
            && final(page_table)@ == old(page_table)@,
        range_all_mapped(old(page_table)@, start_vpn as nat, num_pages as nat) ==> r == 0 && final(page_table)@
            == clear_range(old(page_table)@, start_vpn as nat, num_pages as nat),
{
    let ghost sv = start_vpn as nat;
    let ghost old_pt = page_table@;
    let mut i: usize = 0;
    while i < num_pages
        invariant
            i <= num_pages,
            page_table@ == old_pt,
            forall|k: nat| k < i ==> #[trigger] is_mapped(old_pt, vpn_at(sv, k)),
        decreases num_pages - i,
    {
        let vpn = virt_page_num(start_vpn + i);
        let mapped = match page_table.translate(vpn) {
            Some(pte) => pte.is_valid(),
            None => false,
        };
        if !mapped {
            assert(!is_mapped(old_pt, vpn_at(sv, i as nat)));
            return -1;
        }
        i = i + 1;
    }
    assert(range_all_mapped(old_pt, sv, num_pages as nat));
    let mut i: usize = 0;
    while i < num_pages
        invariant
            i <= num_pages,
            num_pages <= VPN_RANGE,
            page_table@ == clear_range(old_pt, sv, i as nat),
            forall|k: nat| k < num_pages ==> #[trigger] is_mapped(old_pt, vpn_at(sv, k)),
        decreases num_pages - i,
    {
        let vpn = virt_page_num(start_vpn + i);
        proof {
            lemma_clear_range_step(old_pt, sv, i as nat);
            assert(is_mapped(old_pt, vpn_at(sv, i as nat)));
        }
        page_table.unmap(vpn);
        i = i + 1;
    }
    proof {
        assert forall|mem_len: nat|
            frames_in_memory(old_pt, mem_len) && mem_len >= PAGE_SIZE implies #[trigger] frames_in_memory(
                page_table@,
                mem_len,
            ) by {
            assert forall|vpn: usize| #[trigger] page_table@.contains_key(vpn) implies (page_table@[vpn].ppn + 1)
                * PAGE_SIZE <= mem_len by {
                if !in_page_range(sv, num_pages as nat, vpn) {
                    assert(old_pt.contains_key(vpn));
                }
            }
        }
    }
    0
}

} // verus!
