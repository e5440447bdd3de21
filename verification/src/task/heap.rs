//! The heap of a task: moving its end (the program break).
use vstd::prelude::*;
use crate::config::{PAGE_SIZE, VA_RANGE, VPN_RANGE};
use crate::mm::address::{ceil, spec_ceil, vpn_at, lemma_vpn_at};
use crate::mm::page_table::{
    PTE_R, PTE_W, PTE_U, with_valid, is_mapped, map_range, clear_range, frames_in_memory,
    lemma_map_range_step, lemma_clear_range_step,
};
use crate::mm::memory::{PhysMemory, zero_frames};
use crate::task::task::TaskControlBlock;

verus! {

/// The flags of heap pages: readable, writable, user-accessible.
pub const HEAP_FLAGS: u8 = PTE_R + PTE_W + PTE_U;

/// The page where the heap of `t` starts.
pub open spec fn heap_start_vpn(t: TaskControlBlock) -> nat {
    t.heap_bottom as nat / PAGE_SIZE as nat
}

/// The heap bookkeeping of `t` is consistent: the heap starts at a page
/// boundary, ends at the program break inside the Sv39 address space, and has
/// one frame for each page up to the page boundary at or above the break.
pub open spec fn heap_wf(t: TaskControlBlock) -> bool {
    &&& t.heap_bottom % PAGE_SIZE == 0
    &&& t.heap_bottom <= t.program_brk
    &&& t.program_brk < VA_RANGE
    &&& heap_start_vpn(t) + t.heap_frames@.len() == spec_ceil(t.program_brk as nat)
}

/// The program break after moving it by `size` bytes.
pub open spec fn moved_brk(t: TaskControlBlock, size: i32) -> int {
    t.program_brk + size
}

/// The number of heap pages once the break is at `brk`.
pub open spec fn heap_pages(t: TaskControlBlock, brk: int) -> nat {
    (spec_ceil(brk as nat) - heap_start_vpn(t)) as nat
}

/// `t2` is `t` with only its page table, break and heap frames changed.
pub open spec fn same_task_but_heap(t: TaskControlBlock, t2: TaskControlBlock) -> bool {
    &&& t2.pid == t.pid
    &&& t2.status == t.status
    &&& t2.priority == t.priority
    &&& t2.stride == t.stride
    &&& t2.heap_bottom == t.heap_bottom
    &&& t2.syscall_times == t.syscall_times
}

/// What moving the break by `size` needs so that no step of it fails: the
/// new break stays in the Sv39 address space; a growing heap finds enough
/// free frames and its new pages unmapped; a shrinking heap finds the pages
/// it drops mapped and their frames allocated, each once.
pub open spec fn brk_change_ok(t: TaskControlBlock, mem: PhysMemory, size: i32) -> bool {
    let nb = moved_brk(t, size);
    let old_n = t.heap_frames@.len();
    let new_n = heap_pages(t, nb);
    nb >= t.heap_bottom ==> {
        &&& nb < VA_RANGE
        &&& size >= 0 ==> {
            &&& mem.free_frames().len() >= new_n - old_n
            &&& forall|i: nat|
                i < new_n - old_n ==> !#[trigger] is_mapped(t.page_table@, vpn_at(heap_start_vpn(t) + old_n, i))
        }
        &&& size < 0 ==> {
            &&& forall|i: nat|
                i < old_n - new_n ==> #[trigger] is_mapped(t.page_table@, vpn_at(heap_start_vpn(t) + new_n, i))
            &&& t.heap_frames@.subrange(new_n as int, old_n as int).no_duplicates()
            &&& forall|i: int| new_n <= i < old_n ==> #[trigger] mem.is_allocated(t.heap_frames@[i])
        }
    }
}

/// The state that moving the break of `t` by `size` leaves, with memory
/// `m` before and `m2` after: unchanged when the new break would lie below
/// the heap's start; else the break moved, the pages the heap gains mapped to
/// the next free frames, zeroed, or the pages it loses unmapped and their
/// frames returned, the lowest page first.
pub open spec fn brk_effect(
    t: TaskControlBlock,
    m: PhysMemory,
    size: i32,
    t2: TaskControlBlock,
    m2: PhysMemory,
) -> bool {
    let nb = moved_brk(t, size);
    let old_n = t.heap_frames@.len();
    let new_n = heap_pages(t, nb);
    let free = m.free_frames();
    if nb < t.heap_bottom {
        t2 == t && m2 == m
    } else {
        &&& t2.program_brk == nb
        &&& if size >= 0 {
            let k = (new_n - old_n) as nat;
            &&& t2.page_table@ == map_range(t.page_table@, heap_start_vpn(t) + old_n, k, free, with_valid(HEAP_FLAGS))
            &&& t2.heap_frames@ == t.heap_frames@ + free.take(k as int)
            &&& m2.free_frames() == free.skip(k as int)
            &&& m2.bytes() == zero_frames(m.bytes(), free.take(k as int))
        } else {
            &&& t2.page_table@ == clear_range(t.page_table@, heap_start_vpn(t) + new_n, (old_n - new_n) as nat)
            &&& t2.heap_frames@ == t.heap_frames@.take(new_n as int)
            &&& m2.free_frames() == t.heap_frames@.subrange(new_n as int, old_n as int).reverse() + free
            &&& m2.bytes() == m.bytes()
        }
    }
}

proof fn lemma_ceil_mono(a: nat, b: nat)
    requires
        a <= b,
    ensures
        spec_ceil(a) <= spec_ceil(b),
{
    if a > 0 {
        vstd::arithmetic::div_mod::lemma_div_is_ordered((a - 1) as int, (b - 1) as int, PAGE_SIZE as int);
    }
}

proof fn lemma_ceil_bounds(a: nat)
    requires
        a < VA_RANGE,
    ensures
        spec_ceil(a) <= VPN_RANGE,
        a % PAGE_SIZE as nat == 0 ==> spec_ceil(a) == a / PAGE_SIZE as nat,
{
    if a > 0 {
        vstd::arithmetic::div_mod::lemma_div_is_ordered((a - 1) as int, (VA_RANGE - 1) as int, PAGE_SIZE as int);
        assert((VA_RANGE - 1) as int / PAGE_SIZE as int == VPN_RANGE - 1);
        if a % PAGE_SIZE as nat == 0 {
            vstd::arithmetic::div_mod::lemma_fundamental_div_mod(a as int, PAGE_SIZE as int);
            let q = a as int / PAGE_SIZE as int;
            assert((a - 1) as int / PAGE_SIZE as int == q - 1) by (nonlinear_arith)
                requires
                    a == q * PAGE_SIZE,
                    q >= 1,
            ;
        }
    }
}

impl TaskControlBlock {

    /// Unmaps the heap pages from `new_end` on and gives their frames back,
    /// the lowest page first. Returns true.
    #[verifier::loop_isolation(false)]
    fn heap_shrink_to(&mut self, mem: &mut PhysMemory, new_end: usize) -> (r: bool)
        requires
            old(mem).wf(),
            heap_start_vpn(*old(self)) <= new_end <= heap_start_vpn(*old(self)) + old(self).heap_frames@.len(),
            heap_start_vpn(*old(self)) + old(self).heap_frames@.len() <= VPN_RANGE,
            forall|i: nat|
                i < heap_start_vpn(*old(self)) + old(self).heap_frames@.len() - new_end ==> #[trigger] is_mapped(
                    old(self).page_table@,
                    vpn_at(new_end as nat, i),
                ),
            old(self).heap_frames@.subrange(
                new_end - heap_start_vpn(*old(self)),
                old(self).heap_frames@.len() as int,
            ).no_duplicates(),
            forall|i: int|
                new_end - heap_start_vpn(*old(self)) <= i < old(self).heap_frames@.len() ==> #[trigger] old(
                    mem,
                ).is_allocated(old(self).heap_frames@[i]),
        ensures
            r,
            same_task_but_heap(*old(self), *final(self)),
            final(self).program_brk == old(self).program_brk,
            final(self).page_table@ == clear_range(
                old(self).page_table@,
                new_end as nat,
                (heap_start_vpn(*old(self)) + old(self).heap_frames@.len() - new_end) as nat,
            ),
            final(self).heap_frames@ == old(self).heap_frames@.take(new_end - heap_start_vpn(*old(self))),
            final(mem).wf(),
            final(mem).frame_end() == old(mem).frame_end(),
            final(mem).bytes() == old(mem).bytes(),
            final(mem).free_frames() == old(self).heap_frames@.subrange(
                new_end - heap_start_vpn(*old(self)),
                old(self).heap_frames@.len() as int,
            ).reverse() + old(mem).free_frames(),
            frames_in_memory(old(self).page_table@, old(mem).bytes().len()) ==> frames_in_memory(
                final(self).page_table@,
                final(mem).bytes().len(),
            ),
    {
        let ghost t = *old(self);
        let ghost free = mem.free_frames();
        let start_vpn = self.heap_bottom / PAGE_SIZE;
        let end_vpn = new_end;
        let old_end = start_vpn + self.heap_frames.len();
        let ghost removed = t.heap_frames@.subrange((end_vpn - start_vpn) as int, (old_end - start_vpn) as int);
        let mut vpn = end_vpn;
        while vpn < old_end
            invariant
                end_vpn <= vpn <= old_end,
                old_end <= VPN_RANGE,
                self.heap_frames@ == t.heap_frames@,
                self.page_table@ == clear_range(t.page_table@, end_vpn as nat, (vpn - end_vpn) as nat),
                mem.wf(),
                mem.frame_end() == old(mem).frame_end(),
                mem.bytes() == old(mem).bytes(),
                mem.free_frames() == removed.take((vpn - end_vpn) as int).reverse() + free,
                same_task_but_heap(t, *self),
                self.program_brk == t.program_brk,
                frames_in_memory(t.page_table@, old(mem).bytes().len()) ==> frames_in_memory(
                    self.page_table@,
                    old(mem).bytes().len(),
                ),
            decreases old_end - vpn,
        {
            let k = vpn - end_vpn;
            let frame = self.heap_frames[vpn - start_vpn];
            proof {
                assert(removed[k as int] == frame);
                assert(mem.is_allocated(frame)) by {
                    assert(old(mem).is_allocated(frame));
                    if mem.free_frames().contains(frame) {
                        let j = choose|j: int| 0 <= j < mem.free_frames().len() && mem.free_frames()[j] == frame;
                        let rt = removed.take(k as int).reverse();
                        if j < rt.len() {
                            assert(rt[j] == removed[k - 1 - j]);
                            assert(removed.no_duplicates());
                        } else {
                            assert(free[j - rt.len()] == frame);
                        }
                    }
                }
            }
            mem.frame_dealloc(frame);
            proof {
                lemma_vpn_at(end_vpn as nat, k as nat);
                lemma_clear_range_step(t.page_table@, end_vpn as nat, k as nat);
                assert(vpn_at(end_vpn as nat, k as nat) == vpn);
                assert(is_mapped(t.page_table@, vpn_at(end_vpn as nat, k as nat)));
                assert(removed.take(k as int + 1).reverse() =~= seq![frame] + removed.take(k as int).reverse());
                if frames_in_memory(t.page_table@, old(mem).bytes().len()) {
                    assert(t.page_table@.contains_key(vpn));
                    assert(PAGE_SIZE <= old(mem).bytes().len());
                }
            }
            self.page_table.unmap(vpn);
            vpn = vpn + 1;
        }
        self.heap_frames.truncate(end_vpn - start_vpn);
        proof {
            assert(removed.take(removed.len() as int) =~= removed);
        }
        true
    }

    /// Maps the heap pages from the heap's current end up to `new_end`, each
    /// to the next free frame, zeroed. Returns true.
    #[verifier::loop_isolation(false)]
    fn heap_append_to(&mut self, mem: &mut PhysMemory, new_end: usize) -> (r: bool)
        requires
            old(mem).wf(),
            heap_start_vpn(*old(self)) + old(self).heap_frames@.len() <= new_end <= VPN_RANGE,
            old(mem).free_frames().len() >= new_end - (heap_start_vpn(*old(self)) + old(self).heap_frames@.len()),
            forall|i: nat|
                i < new_end - (heap_start_vpn(*old(self)) + old(self).heap_frames@.len()) ==> !#[trigger] is_mapped(
                    old(self).page_table@,
                    vpn_at(heap_start_vpn(*old(self)) + old(self).heap_frames@.len(), i),
                ),
        ensures
            r,
            same_task_but_heap(*old(self), *final(self)),
            final(self).program_brk == old(self).program_brk,
            ({
                let old_end = heap_start_vpn(*old(self)) + old(self).heap_frames@.len();
                let k = (new_end - old_end) as nat;
                let free = old(mem).free_frames();
                &&& final(self).page_table@ == map_range(old(self).page_table@, old_end, k, free, with_valid(HEAP_FLAGS))
                &&& final(self).heap_frames@ == old(self).heap_frames@ + free.take(k as int)
                &&& final(mem).free_frames() == free.skip(k as int)
                &&& final(mem).bytes() == zero_frames(old(mem).bytes(), free.take(k as int))
            }),
            final(mem).wf(),
            final(mem).frame_end() == old(mem).frame_end(),
            final(mem).bytes().len() == old(mem).bytes().len(),
            frames_in_memory(old(self).page_table@, old(mem).bytes().len()) ==> frames_in_memory(
                final(self).page_table@,
                final(mem).bytes().len(),
            ),
    {
        let ghost t = *old(self);
        let ghost free = mem.free_frames();
        proof {
            mem.lemma_wf();
        }
        let start_vpn = self.heap_bottom / PAGE_SIZE;
        let end_vpn = new_end;
        let old_end = start_vpn + self.heap_frames.len();
        let mut vpn = old_end;
        let ghost fl = with_valid(HEAP_FLAGS);
        while vpn < end_vpn
            invariant
                old_end <= vpn <= end_vpn,
                end_vpn <= VPN_RANGE,
                fl == with_valid(HEAP_FLAGS),
                (vpn - old_end) <= free.len(),
                self.heap_frames@ == t.heap_frames@ + free.take((vpn - old_end) as int),
                self.page_table@ == map_range(t.page_table@, old_end as nat, (vpn - old_end) as nat, free, fl),
                mem.wf(),
                mem.frame_end() == old(mem).frame_end(),
                mem.bytes().len() == old(mem).bytes().len(),
                mem.free_frames() == free.skip((vpn - old_end) as int),
                mem.bytes() == zero_frames(old(mem).bytes(), free.take((vpn - old_end) as int)),
                same_task_but_heap(t, *self),
                self.program_brk == t.program_brk,
                frames_in_memory(t.page_table@, old(mem).bytes().len()) ==> frames_in_memory(
                    self.page_table@,
                    old(mem).bytes().len(),
                ),
            decreases end_vpn - vpn,
        {
            let k = vpn - old_end;
            let ppn = mem.frame_alloc().unwrap();
            proof {
                lemma_vpn_at(old_end as nat, k as nat);
                lemma_map_range_step(t.page_table@, old_end as nat, k as nat, free, fl);
                assert(vpn_at(old_end as nat, k as nat) == vpn);
                assert(!is_mapped(t.page_table@, vpn_at(old_end as nat, k as nat)));
                assert(ppn == free[k as int]);
                let fe = old(mem).frame_end();
                assert((ppn + 1) * PAGE_SIZE <= fe * PAGE_SIZE) by (nonlinear_arith)
                    requires
                        ppn < fe,
                ;
                assert(free.take(k as int + 1).drop_last() =~= free.take(k as int));
                assert(free.skip(k as int).drop_first() =~= free.skip(k as int + 1));
                assert(t.heap_frames@ + free.take(k as int + 1) =~= (t.heap_frames@ + free.take(k as int)).push(ppn));
            }
            self.page_table.map(vpn, ppn, HEAP_FLAGS);
            self.heap_frames.push(ppn);
            vpn = vpn + 1;
        }
        true
    }

    /// Moves the program break by `size` bytes, mapping fresh zeroed frames
    /// for the pages the heap gains and unmapping the pages it loses (their
    /// frames return to the allocator). Returns the old break, or `None`
    /// (changing nothing) when the new break would lie below the heap's start.
    pub fn change_program_brk(&mut self, mem: &mut PhysMemory, size: i32) -> (r: Option<usize>)
        requires
            heap_wf(*old(self)),
            old(mem).wf(),
            old(self).program_brk + size <= isize::MAX,
            old(self).program_brk <= isize::MAX,
            brk_change_ok(*old(self), *old(mem), size),
        ensures
            heap_wf(*final(self)),
            same_task_but_heap(*old(self), *final(self)),
            final(mem).wf(),
            final(mem).frame_end() == old(mem).frame_end(),
            final(mem).bytes().len() == old(mem).bytes().len(),
            frames_in_memory(old(self).page_table@, old(mem).bytes().len()) ==> frames_in_memory(
                final(self).page_table@,
                final(mem).bytes().len(),
            ),
            old(self).program_brk + size < old(self).heap_bottom ==> r is None,
            old(self).program_brk + size >= old(self).heap_bottom ==> r == Some(old(self).program_brk),
            brk_effect(*old(self), *old(mem), size, *final(self), *final(mem)),
    {
        let old_break = self.program_brk;
        let new_brk = self.program_brk as isize + size as isize;
        if new_brk < self.heap_bottom as isize {
            return None;
        }
        let new_brk = new_brk as usize;
        let ghost t = *old(self);
        let ghost free = mem.free_frames();
        let start_vpn = self.heap_bottom / PAGE_SIZE;
        let end_vpn = ceil(new_brk);
        assert(new_brk == moved_brk(t, size));
        assert(start_vpn == heap_start_vpn(t));
        proof {
            lemma_ceil_bounds(t.heap_bottom as nat);
            lemma_ceil_bounds(new_brk as nat);
            lemma_ceil_bounds(t.program_brk as nat);
            lemma_ceil_mono(t.heap_bottom as nat, new_brk as nat);
            mem.lemma_wf();
        }
        let result = if size < 0 {
            proof {
                lemma_ceil_mono(new_brk as nat, t.program_brk as nat);
                let new_n = heap_pages(t, moved_brk(t, size));
                assert(end_vpn == heap_start_vpn(t) + new_n);
                assert forall|i: nat|
                    i < heap_start_vpn(t) + t.heap_frames@.len() - end_vpn implies #[trigger] is_mapped(
                        t.page_table@,
                        vpn_at(end_vpn as nat, i),
                    ) by {
                    assert(is_mapped(t.page_table@, vpn_at(heap_start_vpn(t) + new_n, i)));
                }
            }
            self.heap_shrink_to(mem, end_vpn)
        } else {
            proof {
                lemma_ceil_mono(t.program_brk as nat, new_brk as nat);
                let new_n = heap_pages(t, moved_brk(t, size));
                assert(end_vpn == heap_start_vpn(t) + new_n);
            }
            self.heap_append_to(mem, end_vpn)
        };
        if result {
            self.program_brk = new_brk;
            Some(old_break)
        } else {
            None
        }
    }
}

/// Moving the break by 0 only reports it: the break, the heap, the page
/// table and memory stay as they were.
pub proof fn law_sbrk_zero_is_query(t: TaskControlBlock, m: PhysMemory, t2: TaskControlBlock, m2: PhysMemory)
    requires
        heap_wf(t),
        brk_effect(t, m, 0, t2, m2),
    ensures
        t2.program_brk == t.program_brk,
        t2.heap_frames@ == t.heap_frames@,
        t2.page_table@ == t.page_table@,
        m2.free_frames() == m.free_frames(),
        m2.bytes() == m.bytes(),
{
    let sv = heap_start_vpn(t) + t.heap_frames@.len();
    let free = m.free_frames();
    assert(map_range(t.page_table@, sv, 0, free, with_valid(HEAP_FLAGS)) =~= t.page_table@);
    assert(free.take(0) =~= Seq::<usize>::empty());
    assert(t.heap_frames@ + free.take(0) =~= t.heap_frames@);
    assert(free.skip(0) =~= free);
    assert(zero_frames(m.bytes(), free.take(0)) == m.bytes());
}

/// Moving the break by `size` and then back by `-size` restores the break
/// and the number of heap pages.
pub proof fn law_sbrk_round_trip(
    t1: TaskControlBlock,
    m1: PhysMemory,
    t2: TaskControlBlock,
    m2: PhysMemory,
    t3: TaskControlBlock,
    m3: PhysMemory,
    size: i32,
    back: i32,
)
    requires
        heap_wf(t1),
        heap_wf(t3),
        back == -size,
        t1.program_brk + size >= t1.heap_bottom,
        brk_effect(t1, m1, size, t2, m2),
        same_task_but_heap(t1, t2),
        brk_effect(t2, m2, back, t3, m3),
        same_task_but_heap(t2, t3),
    ensures
        t3.program_brk == t1.program_brk,
        t3.heap_frames@.len() == t1.heap_frames@.len(),
{
}

/// After the break has been moved by `n`, a query (a move by 0) may be
/// made and reports the new break, the old break plus `n`.
pub proof fn law_sbrk_then_query(t1: TaskControlBlock, m1: PhysMemory, t2: TaskControlBlock, m2: PhysMemory, n: i32)
    requires
        heap_wf(t1),
        t1.program_brk + n >= t1.heap_bottom,
        brk_effect(t1, m1, n, t2, m2),
        same_task_but_heap(t1, t2),
        heap_wf(t2),
    ensures
        t2.program_brk == t1.program_brk + n,
        brk_change_ok(t2, m2, 0),
        moved_brk(t2, 0) == t2.program_brk,
        moved_brk(t2, 0) >= t2.heap_bottom,
{
}

/// After the heap has grown by `n > 0` bytes, shrinking it by `n` may be
/// asked: the pages it then drops are the pages the growth mapped, still
/// mapped, and their frames are allocated, each once. The break goes back
/// to where it was.
pub proof fn law_sbrk_shrink_after_grow(
    t1: TaskControlBlock,
    m1: PhysMemory,
    t2: TaskControlBlock,
    m2: PhysMemory,
    n: i32,
    back: i32,
)
    requires
        heap_wf(t1),
        m1.wf(),
        n > 0,
        back == -n,
        t1.program_brk + n <= isize::MAX,
        brk_change_ok(t1, m1, n),
        brk_effect(t1, m1, n, t2, m2),
        same_task_but_heap(t1, t2),
        heap_wf(t2),
        m2.frame_end() == m1.frame_end(),
    ensures
        t2.program_brk <= isize::MAX,
        t2.program_brk + back <= isize::MAX,
        brk_change_ok(t2, m2, back),
        moved_brk(t2, back) == t1.program_brk,
{
    let free = m1.free_frames();
    let old_n = t1.heap_frames@.len();
    let new_n = heap_pages(t1, moved_brk(t1, n));
    let k = (new_n - old_n) as nat;
    let sv = heap_start_vpn(t1) + old_n;
    m1.lemma_wf();
    lemma_ceil_bounds(t2.program_brk as nat);
    lemma_ceil_bounds(t1.heap_bottom as nat);
    lemma_ceil_mono(t1.heap_bottom as nat, t1.program_brk as nat);
    assert(heap_pages(t2, moved_brk(t2, back)) == old_n);
    assert(t2.heap_frames@.len() == old_n + k);
    assert forall|i: nat| i < k implies #[trigger] is_mapped(t2.page_table@, vpn_at(sv, i)) by {
        lemma_vpn_at(sv, i);
    }
    let dropped = t2.heap_frames@.subrange(old_n as int, (old_n + k) as int);
    assert(dropped =~= free.take(k as int));
    assert forall|i: int, j: int| 0 <= i < j < dropped.len() implies dropped[i] != dropped[j] by {
        assert(dropped[i] == free[i] && dropped[j] == free[j]);
    }
    assert forall|i: int| old_n <= i < old_n + k implies #[trigger] m2.is_allocated(t2.heap_frames@[i]) by {
        let f = free[i - old_n];
        assert(t2.heap_frames@[i] == f);
        if m2.free_frames().contains(f) {
            let j = choose|j: int| 0 <= j < m2.free_frames().len() && m2.free_frames()[j] == f;
            assert(free[j + k] == f);
        }
    }
}

} // verus!
