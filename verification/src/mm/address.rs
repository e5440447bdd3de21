//! Sv39 virtual addresses and page numbers.
use vstd::prelude::*;
use crate::config::{PAGE_SIZE, VA_RANGE, VPN_RANGE};

verus! {

/// The virtual address that `v` denotes: its low 39 bits.
pub open spec fn spec_va(v: nat) -> nat {
    v % (VA_RANGE as nat)
}

/// The virtual page number that `v` denotes: its low 27 bits.
pub open spec fn spec_vpn(v: nat) -> nat {
    v % (VPN_RANGE as nat)
}

/// Keeps the low 39 bits of `v`, as converting a `usize` into a virtual
/// address does.
pub fn virt_addr(v: usize) -> (r: usize)
    ensures
        r == spec_va(v as nat),
        r < VA_RANGE,
        r <= v,
{
    ((v as u64) % VA_RANGE) as usize
}

/// Keeps the low 27 bits of `v`, as converting a `usize` into a virtual
/// page number does.
pub fn virt_page_num(v: usize) -> (r: usize)
    ensures
        r == spec_vpn(v as nat),
        r < VPN_RANGE,
{
    v % VPN_RANGE
}

/// The page that holds virtual address `va`.
pub fn floor(va: usize) -> (r: usize)
    ensures
        r == va / PAGE_SIZE,
{
    va / PAGE_SIZE
}

/// The offset of virtual address `va` inside its page.
pub fn page_offset(va: usize) -> (r: usize)
    ensures
        r == va % PAGE_SIZE,
        r < PAGE_SIZE,
{
    va % PAGE_SIZE
}

/// The `i`-th page of the range of pages that starts at page `sv`; the page
/// numbers wrap around at `VPN_RANGE`.
pub open spec fn vpn_at(sv: nat, i: nat) -> usize {
    ((sv + i) % (VPN_RANGE as nat)) as usize
}

/// The position of page `v` in the range of pages that starts at page `sv`.
pub open spec fn range_offset(sv: nat, v: usize) -> int {
    (v - sv) % (VPN_RANGE as int)
}

/// Page `v` is one of the `n` pages from page `sv`.
pub open spec fn in_page_range(sv: nat, n: nat, v: usize) -> bool {
    v < VPN_RANGE && range_offset(sv, v) < n
}

/// The `i`-th page of a range sits at position `i`.
pub proof fn lemma_vpn_at(sv: nat, i: nat)
    requires
        sv < VPN_RANGE,
        i < VPN_RANGE,
    ensures
        vpn_at(sv, i) < VPN_RANGE,
        range_offset(sv, vpn_at(sv, i)) == i,
{
    let r = VPN_RANGE as int;
    let x = (sv + i) as int;
    if x < r {
        vstd::arithmetic::div_mod::lemma_small_mod(x as nat, r as nat);
        vstd::arithmetic::div_mod::lemma_small_mod(i, r as nat);
    } else {
        vstd::arithmetic::div_mod::lemma_mod_sub_multiples_vanish(x, r);
        vstd::arithmetic::div_mod::lemma_small_mod((x - r) as nat, r as nat);
        assert(vpn_at(sv, i) == x - r);
        vstd::arithmetic::div_mod::lemma_mod_add_multiples_vanish(i - r, r);
        vstd::arithmetic::div_mod::lemma_small_mod(i, r as nat);
        assert(range_offset(sv, vpn_at(sv, i)) == (i - r) % r);
    }
}

/// A page below `VPN_RANGE` is the page of a range at its position.
pub proof fn lemma_range_offset(sv: nat, v: usize)
    requires
        sv < VPN_RANGE,
        v < VPN_RANGE,
    ensures
        0 <= range_offset(sv, v) < VPN_RANGE,
        vpn_at(sv, range_offset(sv, v) as nat) == v,
{
    let r = VPN_RANGE as int;
    let d = v - sv;
    if d >= 0 {
        vstd::arithmetic::div_mod::lemma_small_mod(d as nat, r as nat);
        vstd::arithmetic::div_mod::lemma_small_mod(v as nat, r as nat);
    } else {
        vstd::arithmetic::div_mod::lemma_mod_add_multiples_vanish(d, r);
        vstd::arithmetic::div_mod::lemma_small_mod((d + r) as nat, r as nat);
        assert(range_offset(sv, v) == d + r);
        vstd::arithmetic::div_mod::lemma_mod_sub_multiples_vanish(v + r, r);
        vstd::arithmetic::div_mod::lemma_small_mod(v as nat, r as nat);
    }
}

/// The first page boundary at or above address `va`, as a page number.
pub open spec fn spec_ceil(va: nat) -> nat {
    if va == 0 {
        0
    } else {
        ((va - 1) as nat / (PAGE_SIZE as nat) + 1) as nat
    }
}

/// The number of the first page that starts at or above address `va`.
pub fn ceil(va: usize) -> (r: usize)
    ensures
        r == spec_ceil(va as nat),
{
    if va == 0 {
        0
    } else {
        (va - 1) / PAGE_SIZE + 1
    }
}

} // verus!
