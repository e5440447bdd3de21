//! Access to a user address range through a page table: the physical pieces
//! it is made of, and copying bytes into them.
use vstd::prelude::*;
use crate::config::{PAGE_SIZE, VA_RANGE};
use crate::mm::address::{virt_addr, floor, page_offset};
use crate::mm::page_table::{PageTable, PageTableEntry, frame_in_memory};
use crate::mm::memory::PhysMemory;

verus! {

/// A piece of physical memory: `len` bytes from physical address `start`.
#[derive(Clone, Copy)]
pub struct PhysRange {
    pub start: usize,
    pub len: usize,
}

/// The physical address that virtual address `va` reaches through `m`.
pub open spec fn pa_of(m: Map<usize, PageTableEntry>, va: int) -> int {
    m[(va / PAGE_SIZE as int) as usize].ppn * PAGE_SIZE + va % PAGE_SIZE as int
}

/// The physical addresses that the `len` bytes from virtual address `ptr`
/// reach through `m`, in order.
pub open spec fn user_pas(m: Map<usize, PageTableEntry>, ptr: int, len: nat) -> Seq<int> {
    Seq::new(len, |k: int| pa_of(m, ptr + k))
}

/// Every page that the `len` bytes from `ptr` touch has a slot in `m`.
pub open spec fn pages_present(m: Map<usize, PageTableEntry>, ptr: int, len: int) -> bool {
    len <= 0 || forall|vpn: usize|
        ptr / PAGE_SIZE as int <= vpn <= (ptr + len - 1) / PAGE_SIZE as int ==> #[trigger] m.contains_key(vpn)
}

/// Every page that the `len` bytes from `ptr` touch and that has a slot in
/// `m` points to a frame inside a physical memory of `mem_len` bytes.
pub open spec fn pages_in_memory(m: Map<usize, PageTableEntry>, ptr: int, len: int, mem_len: nat) -> bool {
    len <= 0 || forall|vpn: usize|
        ptr / PAGE_SIZE as int <= vpn <= (ptr + len - 1) / PAGE_SIZE as int && #[trigger] m.contains_key(vpn)
            ==> frame_in_memory(m[vpn].ppn, mem_len)
}

/// The number of pages that the `len` bytes from `ptr` touch.
pub open spec fn pages_touched(ptr: int, len: int) -> int {
    if len <= 0 {
        0
    } else {
        (ptr + len - 1) / PAGE_SIZE as int - ptr / PAGE_SIZE as int + 1
    }
}

/// Where the `i`-th page touched by a user range from `ptr` begins to be
/// covered: `ptr` itself for the first page, the page's start for the others.
pub open spec fn piece_va(ptr: int, i: int) -> int {
    if i == 0 {
        ptr
    } else {
        (ptr / PAGE_SIZE as int + i) * PAGE_SIZE as int
    }
}

/// Where the coverage of the `i`-th page touched by the `len` bytes from
/// `ptr` ends: at the page's end, or at the end of the range if it comes first.
pub open spec fn piece_end(ptr: int, len: int, i: int) -> int {
    let boundary = (ptr / PAGE_SIZE as int + i + 1) * PAGE_SIZE as int;
    if boundary < ptr + len {
        boundary
    } else {
        ptr + len
    }
}

/// The addresses of a physical range, in order.
pub open spec fn range_pas(r: PhysRange) -> Seq<int> {
    Seq::new(r.len as nat, |j: int| r.start + j)
}

/// The addresses of a sequence of physical ranges, one range after another.
pub open spec fn flatten(rs: Seq<PhysRange>) -> Seq<int>
    decreases rs.len(),
{
    if rs.len() == 0 {
        Seq::empty()
    } else {
        flatten(rs.drop_last()) + range_pas(rs.last())
    }
}

/// `mem` after writing `vals[k]` at address `addrs[k]`, for `k` in order.
pub open spec fn write_seq(mem: Seq<u8>, addrs: Seq<int>, vals: Seq<u8>) -> Seq<u8>
    decreases addrs.len(),
{
    if addrs.len() == 0 || vals.len() == 0 {
        mem
    } else {
        write_seq(mem, addrs.drop_last(), vals.drop_last()).update(addrs.last(), vals.last())
    }
}

proof fn lemma_flatten_push(rs: Seq<PhysRange>, r: PhysRange)
    ensures
        flatten(rs.push(r)) == flatten(rs) + range_pas(r),
{
    assert(rs.push(r).drop_last() =~= rs);
}

proof fn lemma_page_split(va: int, vpn: int, off: int)
    requires
        va >= 0,
        vpn == va / PAGE_SIZE as int,
        off == va % PAGE_SIZE as int,
    ensures
        va == vpn * PAGE_SIZE + off,
        0 <= off < PAGE_SIZE,
{
}

/// Within one page, consecutive virtual bytes reach consecutive physical bytes.
proof fn lemma_pa_in_page(m: Map<usize, PageTableEntry>, start: int, j: int, vpn: int, off: int)
    requires
        start >= 0,
        vpn == start / PAGE_SIZE as int,
        off == start % PAGE_SIZE as int,
        0 <= j,
        off + j < PAGE_SIZE,
    ensures
        (start + j) / PAGE_SIZE as int == vpn,
        (start + j) % PAGE_SIZE as int == off + j,
        pa_of(m, start + j) == m[vpn as usize].ppn * PAGE_SIZE + off + j,
{
    lemma_page_split(start, vpn, off);
    assert((start + j) / PAGE_SIZE as int == vpn) by (nonlinear_arith)
        requires
            start == vpn * PAGE_SIZE + off,
            0 <= off,
            0 <= j,
            off + j < PAGE_SIZE,
    ;
    assert((start + j) % PAGE_SIZE as int == off + j) by (nonlinear_arith)
        requires
            start == vpn * PAGE_SIZE + off,
            0 <= off,
            0 <= j,
            off + j < PAGE_SIZE,
    ;
}

/// The physical pieces that the `len` bytes from user address `ptr` are made
/// of: one piece per page touched, in order.
pub fn translated_byte_buffer(pt: &PageTable, ptr: usize, len: usize) -> (r: Vec<PhysRange>)
    requires
        ptr + len < VA_RANGE,
        ptr + len <= usize::MAX,
        pages_present(pt@, ptr as int, len as int),
    ensures
        flatten(r@) == user_pas(pt@, ptr as int, len as nat),
        forall|i: int| 0 <= i < r@.len() ==> #[trigger] r@[i].len > 0,
        // one piece per page touched, from where the range enters the page to
        // where it leaves it
        r@.len() == pages_touched(ptr as int, len as int),
        forall|i: int|
            0 <= i < r@.len() ==> #[trigger] r@[i].start == pa_of(pt@, piece_va(ptr as int, i)) && r@[i].len
                == piece_end(ptr as int, len as int, i) - piece_va(ptr as int, i),
{
    let ghost ps = PAGE_SIZE as int;
    let ghost pv = ptr as int / ps;
    let mut start = ptr;
    let end = ptr + len;
    let mut v: Vec<PhysRange> = Vec::new();
    while start < end
        invariant
            ptr <= start <= end,
            end == ptr + len,
            end < VA_RANGE,
            pages_present(pt@, ptr as int, len as int),
            flatten(v@) == user_pas(pt@, ptr as int, (start - ptr) as nat),
            forall|i: int| 0 <= i < v@.len() ==> #[trigger] v@[i].len > 0,
            ps == PAGE_SIZE,
            pv == ptr as int / ps,
            v@.len() == 0 ==> start == ptr,
            v@.len() > 0 ==> start == piece_end(ptr as int, len as int, v@.len() - 1),
            v@.len() > 0 ==> (pv + v@.len() - 1) * ps < end,
            forall|i: int|
                0 <= i < v@.len() ==> #[trigger] v@[i].start == pa_of(pt@, piece_va(ptr as int, i)) && v@[i].len
                    == piece_end(ptr as int, len as int, i) - piece_va(ptr as int, i),
        decreases end - start,
    {
        let start_va = virt_addr(start);
        assert(start_va == start) by {
            vstd::arithmetic::div_mod::lemma_small_mod(start as nat, VA_RANGE as nat);
        }
        let vpn = floor(start_va);
        assert(pt@.contains_key(vpn)) by {
            assert(ptr as int / PAGE_SIZE as int <= vpn) by (nonlinear_arith)
                requires
                    ptr <= start,
                    vpn == start / PAGE_SIZE,
            ;
            assert(vpn <= (ptr + len - 1) / PAGE_SIZE as int) by (nonlinear_arith)
                requires
                    start <= ptr + len - 1,
                    vpn == start / PAGE_SIZE,
            ;
        }
        let pte = pt.translate(vpn).unwrap();
        let ppn = pte.ppn;
        let off = page_offset(start_va);
        let end_va_limit = virt_addr(end);
        assert(end_va_limit == end) by {
            vstd::arithmetic::div_mod::lemma_small_mod(end as nat, VA_RANGE as nat);
        }
        proof {
            lemma_page_split(start as int, vpn as int, off as int);
            lemma_page_split((end - 1) as int, ((end - 1) / (PAGE_SIZE as int)) as int, ((end - 1) % (PAGE_SIZE as int)) as int);
        }
        let last_vpn = floor(end_va_limit - 1);
        let crosses = vpn < last_vpn;
        if crosses {
            assert((vpn + 1) * PAGE_SIZE <= end - 1) by (nonlinear_arith)
                requires
                    vpn + 1 <= last_vpn,
                    end - 1 == last_vpn * PAGE_SIZE + (end - 1) % (PAGE_SIZE as int),
                    (end - 1) % (PAGE_SIZE as int) >= 0,
            ;
        } else {
            assert(vpn == last_vpn) by (nonlinear_arith)
                requires
                    vpn >= last_vpn,
                    start <= end - 1,
                    vpn == start / PAGE_SIZE,
                    last_vpn == (end - 1) / (PAGE_SIZE as int),
            ;
        }
        // The next page boundary, or the end of the range if it comes first.
        let end_va = if crosses { (vpn + 1) * PAGE_SIZE } else { end_va_limit };
        let pa = ppn * PAGE_SIZE + off;
        let piece = if page_offset(end_va) == 0 {
            PhysRange { start: pa, len: PAGE_SIZE - off }
        } else {
            PhysRange { start: pa, len: page_offset(end_va) - off }
        };
        assert(piece.len == end_va - start) by {
            if crosses {
                assert(end_va % PAGE_SIZE == 0) by (nonlinear_arith)
                    requires end_va == (vpn + 1) * PAGE_SIZE;
            } else {
                lemma_page_split(end as int, (end / PAGE_SIZE) as int, (end % PAGE_SIZE) as int);
                let lo = (end - 1) % (PAGE_SIZE as int);
                assert(end == vpn * PAGE_SIZE + lo + 1);
                if lo + 1 == PAGE_SIZE {
                    assert(end % PAGE_SIZE == 0) by (nonlinear_arith)
                        requires end == vpn * PAGE_SIZE + PAGE_SIZE;
                } else {
                    assert(end % PAGE_SIZE == lo + 1) by (nonlinear_arith)
                        requires
                            end == vpn * PAGE_SIZE + lo + 1,
                            0 <= lo,
                            lo + 1 < PAGE_SIZE,
                    ;
                }
            }
        }
        proof {
            let k = v@.len() as int;
            // the page that this piece covers is the `k`-th page touched
            if k == 0 {
                assert(vpn == pv);
            } else {
                let b = (pv + k) * ps;
                assert(start == b);
                assert(b / ps == pv + k) by (nonlinear_arith)
                    requires
                        b == (pv + k) * ps,
                        ps == 4096,
                ;
                assert(b % ps == 0) by (nonlinear_arith)
                    requires
                        b == (pv + k) * ps,
                        ps == 4096,
                ;
            }
            assert(vpn == pv + k);
            assert(piece_va(ptr as int, k) == start);
            assert(piece.start == pa_of(pt@, start as int));
            assert(end_va == piece_end(ptr as int, len as int, k)) by {
                if !crosses {
                    assert(end <= (vpn + 1) * PAGE_SIZE) by (nonlinear_arith)
                        requires
                            end - 1 == vpn * PAGE_SIZE + (end - 1) % (PAGE_SIZE as int),
                            (end - 1) % (PAGE_SIZE as int) < PAGE_SIZE,
                    ;
                }
            }
            assert((pv + k) * ps < end) by (nonlinear_arith)
                requires
                    vpn == pv + k,
                    start < end,
                    vpn == start / PAGE_SIZE,
                    ps == PAGE_SIZE,
            ;
        }
        proof {
            lemma_flatten_push(v@, piece);
            let old_len = (start - ptr) as nat;
            let new_len = (end_va - ptr) as nat;
            assert forall|k: int| 0 <= k < new_len implies #[trigger] (flatten(v@) + range_pas(piece))[k]
                == user_pas(pt@, ptr as int, new_len)[k] by {
                if k >= old_len {
                    let j = k - old_len;
                    lemma_pa_in_page(pt@, start as int, j, vpn as int, off as int);
                }
            }
            assert(flatten(v@) + range_pas(piece) =~= user_pas(pt@, ptr as int, new_len));
        }
        let ghost before = v@;
        v.push(piece);
        proof {
            let k = before.len() as int;
            assert(piece.start == pa_of(pt@, piece_va(ptr as int, k)));
            assert(piece.len == piece_end(ptr as int, len as int, k) - piece_va(ptr as int, k));
            assert forall|i: int| 0 <= i < v@.len() implies #[trigger] v@[i].start == pa_of(
                pt@,
                piece_va(ptr as int, i),
            ) && v@[i].len == piece_end(ptr as int, len as int, i) - piece_va(ptr as int, i) by {
                if i < k {
                    assert(v@[i] == before[i]);
                } else {
                    assert(v@[i] == piece);
                }
            }
        }
        start = end_va;
    }
    proof {
        let k = v@.len() as int;
        if len > 0 {
            assert(k > 0);
            let e1 = (end - 1) as int / ps;
            assert(k == e1 - pv + 1) by (nonlinear_arith)
                requires
                    (pv + k - 1) * ps < end,
                    start == end,
                    k > 0,
                    start == piece_end(ptr as int, len as int, k - 1),
                    piece_end(ptr as int, len as int, k - 1) == if (pv + k) * ps < ptr + len {
                        (pv + k) * ps
                    } else {
                        ptr + len
                    },
                    end == ptr + len,
                    e1 == (end - 1) / ps,
                    ps == 4096,
            ;
        }
    }
    v
}

proof fn lemma_flatten_take(rs: Seq<PhysRange>, i: int)
    requires
        0 <= i < rs.len(),
    ensures
        flatten(rs.take(i + 1)) == flatten(rs.take(i)) + range_pas(rs[i]),
{
    assert(rs.take(i + 1).drop_last() =~= rs.take(i));
}

proof fn lemma_flatten_len_mono(rs: Seq<PhysRange>, i: int, k: int)
    requires
        0 <= i <= k <= rs.len(),
    ensures
        flatten(rs.take(i)).len() <= flatten(rs.take(k)).len(),
    decreases k - i,
{
    if i < k {
        lemma_flatten_len_mono(rs, i, k - 1);
        lemma_flatten_take(rs, k - 1);
    }
}

proof fn lemma_flatten_contains(rs: Seq<PhysRange>, i: int, j: int)
    requires
        0 <= i < rs.len(),
        0 <= j < rs[i].len,
    ensures
        flatten(rs).contains(rs[i].start + j),
    decreases rs.len(),
{
    let f = flatten(rs);
    let d = flatten(rs.drop_last());
    if i == rs.len() - 1 {
        assert(f[d.len() + j] == rs[i].start + j);
    } else {
        lemma_flatten_contains(rs.drop_last(), i, j);
        let k = choose|k: int| 0 <= k < d.len() && d[k] == rs[i].start + j;
        assert(f[k] == rs[i].start + j);
    }
}

/// Writing values at pairwise distinct addresses: each written address holds
/// its value, every other address keeps its content.
pub proof fn lemma_write_seq(mem: Seq<u8>, addrs: Seq<int>, vals: Seq<u8>)
    requires
        addrs.len() == vals.len(),
        addrs.no_duplicates(),
        forall|k: int| 0 <= k < addrs.len() ==> 0 <= #[trigger] addrs[k] < mem.len(),
    ensures
        write_seq(mem, addrs, vals).len() == mem.len(),
        forall|k: int| 0 <= k < addrs.len() ==> #[trigger] write_seq(mem, addrs, vals)[addrs[k]] == vals[k],
        forall|a: int| 0 <= a < mem.len() && !addrs.contains(a) ==> #[trigger] write_seq(mem, addrs, vals)[a] == mem[a],
    decreases addrs.len(),
{
    if addrs.len() > 0 {
        let a2 = addrs.drop_last();
        let v2 = vals.drop_last();
        assert forall|k: int| 0 <= k < a2.len() implies 0 <= #[trigger] a2[k] < mem.len() by {
            assert(a2[k] == addrs[k]);
        }
        assert(a2.no_duplicates()) by {
            assert forall|i: int, j: int| 0 <= i < j < a2.len() implies a2[i] != a2[j] by {
                assert(a2[i] == addrs[i] && a2[j] == addrs[j]);
            }
        }
        lemma_write_seq(mem, a2, v2);
        let w = write_seq(mem, addrs, vals);
        assert forall|k: int| 0 <= k < addrs.len() implies #[trigger] w[addrs[k]] == vals[k] by {
            if k < addrs.len() - 1 {
                assert(a2[k] == addrs[k]);
                assert(addrs[k] != addrs.last());
            }
        }
        assert forall|a: int| 0 <= a < mem.len() && !addrs.contains(a) implies #[trigger] w[a] == mem[a] by {
            if a2.contains(a) {
                let k = choose|k: int| 0 <= k < a2.len() && a2[k] == a;
                assert(addrs[k] == a);
            }
            assert(addrs[addrs.len() - 1] == addrs.last());
        }
    }
}

/// Fewer than a page of consecutive user bytes never reach one physical
/// byte twice.
pub proof fn lemma_user_pas_distinct(m: Map<usize, PageTableEntry>, ptr: int, len: nat)
    requires
        ptr >= 0,
        len <= PAGE_SIZE,
    ensures
        user_pas(m, ptr, len).no_duplicates(),
{
    let s = user_pas(m, ptr, len);
    assert forall|i: int, j: int| 0 <= i < j < s.len() implies s[i] != s[j] by {
        let ps = PAGE_SIZE as int;
        let vi = (ptr + i) / ps;
        let vj = (ptr + j) / ps;
        let oi = (ptr + i) % ps;
        let oj = (ptr + j) % ps;
        let pi = m[vi as usize].ppn as int;
        let pj = m[vj as usize].ppn as int;
        lemma_page_split(ptr + i, vi, oi);
        lemma_page_split(ptr + j, vj, oj);
        assert(oi != oj) by (nonlinear_arith)
            requires
                ptr + i == vi * ps + oi,
                ptr + j == vj * ps + oj,
                0 <= oi < ps,
                0 <= oj < ps,
                0 < j - i < ps,
                ps == 4096,
        ;
        assert(s[i] == pi * ps + oi);
        assert(s[j] == pj * ps + oj);
        assert(pi * ps + oi != pj * ps + oj) by (nonlinear_arith)
            requires
                0 <= oi < ps,
                0 <= oj < ps,
                oi != oj,
                ps == 4096,
        ;
    }
}

/// Writes `bytes`, one after another, into the physical pieces `ranges`.
pub fn copy_into_ranges(mem: &mut PhysMemory, ranges: &Vec<PhysRange>, bytes: &Vec<u8>)
    requires
        old(mem).wf(),
        flatten(ranges@).len() == bytes@.len(),
        forall|a: int| #[trigger] flatten(ranges@).contains(a) ==> 0 <= a < old(mem).bytes().len(),
    ensures
        final(mem).wf(),
        final(mem).bytes() == write_seq(old(mem).bytes(), flatten(ranges@), bytes@),
        final(mem).free_frames() == old(mem).free_frames(),
        final(mem).frame_end() == old(mem).frame_end(),
{
    let ghost rs = ranges@;
    let _n = bytes.len();
    proof {
        mem.lemma_wf();
    }
    let mut written: usize = 0;
    let mut i: usize = 0;
    while i < ranges.len()
        invariant
            mem.wf(),
            rs == ranges@,
            0 <= i <= rs.len(),
            written == flatten(rs.take(i as int)).len(),
            flatten(rs).len() == bytes@.len(),
            forall|a: int| #[trigger] flatten(rs).contains(a) ==> 0 <= a < old(mem).bytes().len(),
            mem.bytes().len() == old(mem).bytes().len(),
            old(mem).bytes().len() <= usize::MAX,
            bytes@.len() <= usize::MAX,
            mem.bytes() == write_seq(old(mem).bytes(), flatten(rs.take(i as int)), bytes@.take(written as int)),
            mem.free_frames() == old(mem).free_frames(),
            mem.frame_end() == old(mem).frame_end(),
        decreases rs.len() - i,
    {
        let piece = ranges[i];
        proof {
            lemma_flatten_take(rs, i as int);
            lemma_flatten_len_mono(rs, i as int + 1, rs.len() as int);
            assert(rs.take(rs.len() as int) =~= rs);
        }
        let ghost prefix = flatten(rs.take(i as int));
        let mut j: usize = 0;
        while j < piece.len
            invariant
                mem.wf(),
                rs == ranges@,
                0 <= i < rs.len(),
                piece == rs[i as int],
                0 <= j <= piece.len,
                prefix == flatten(rs.take(i as int)),
                written == prefix.len() + j,
                prefix.len() + piece.len <= bytes@.len(),
                forall|a: int| #[trigger] flatten(rs).contains(a) ==> 0 <= a < old(mem).bytes().len(),
                mem.bytes().len() == old(mem).bytes().len(),
                old(mem).bytes().len() <= usize::MAX,
                bytes@.len() <= usize::MAX,
                mem.bytes() == write_seq(
                    old(mem).bytes(),
                    prefix + range_pas(piece).take(j as int),
                    bytes@.take(written as int),
                ),
                mem.free_frames() == old(mem).free_frames(),
                mem.frame_end() == old(mem).frame_end(),
            decreases piece.len - j,
        {
            proof {
                lemma_flatten_contains(rs, i as int, j as int);
            }
            let pa = piece.start + j;
            let b = bytes[written];
            mem.write_byte(pa, b);
            proof {
                let addrs = prefix + range_pas(piece).take(j as int);
                let addrs2 = prefix + range_pas(piece).take(j as int + 1);
                assert(addrs2.drop_last() =~= addrs);
                assert(addrs2.last() == pa);
                assert(bytes@.take(written as int + 1).drop_last() =~= bytes@.take(written as int));
            }
            j = j + 1;
            written = written + 1;
        }
        proof {
            assert(range_pas(piece).take(piece.len as int) =~= range_pas(piece));
        }
        i = i + 1;
    }
    proof {
        assert(rs.take(rs.len() as int) =~= rs);
        assert(bytes@.take(written as int) =~= bytes@);
    }
}

/// The first address of pieces that are all non-empty is the start of the
/// first piece.
pub proof fn lemma_flatten_first(rs: Seq<PhysRange>)
    requires
        rs.len() > 0,
        forall|i: int| 0 <= i < rs.len() ==> #[trigger] rs[i].len > 0,
    ensures
        flatten(rs).len() > 0,
        flatten(rs)[0] == rs[0].start,
    decreases rs.len(),
{
    let d = rs.drop_last();
    assert(flatten(rs) == flatten(d) + range_pas(rs.last()));
    if rs.len() == 1 {
        assert(flatten(d) =~= Seq::<int>::empty());
    } else {
        assert(d[0] == rs[0]);
        assert forall|i: int| 0 <= i < d.len() implies #[trigger] d[i].len > 0 by {
            assert(d[i] == rs[i]);
        }
        lemma_flatten_first(d);
    }
}

/// When the pages of a user range are present and every entry points inside
/// memory, each byte of the range reaches an address inside memory.
pub proof fn lemma_user_pas_in_memory(m: Map<usize, PageTableEntry>, ptr: int, len: nat, mem_len: nat)
    requires
        ptr >= 0,
        ptr + len <= usize::MAX,
        pages_present(m, ptr, len as int),
        pages_in_memory(m, ptr, len as int, mem_len),
    ensures
        forall|k: int| 0 <= k < len ==> 0 <= #[trigger] user_pas(m, ptr, len)[k] < mem_len,
        forall|a: int| #[trigger] user_pas(m, ptr, len).contains(a) ==> 0 <= a < mem_len,
{
    let ps = PAGE_SIZE as int;
    assert forall|k: int| 0 <= k < len implies 0 <= #[trigger] user_pas(m, ptr, len)[k] < mem_len by {
        let va = ptr + k;
        let vpn = va / ps;
        let off = va % ps;
        lemma_page_split(va, vpn, off);
        vstd::arithmetic::div_mod::lemma_div_is_ordered(ptr, va, ps);
        vstd::arithmetic::div_mod::lemma_div_is_ordered(va, ptr + len - 1, ps);
        assert(vpn <= usize::MAX) by {
            vstd::arithmetic::div_mod::lemma_div_is_ordered_by_denominator(va, 1, ps);
        }
        assert(m.contains_key(vpn as usize));
        let ppn = m[vpn as usize].ppn as int;
        assert((ppn + 1) * ps <= mem_len);
        assert(ppn * ps + off < (ppn + 1) * ps) by (nonlinear_arith)
            requires
                0 <= off < ps,
        ;
        assert(0 <= ppn * ps) by (nonlinear_arith)
            requires
                0 <= ppn,
                0 < ps,
        ;
    }
}

} // verus!
