//! Facts about the flag bits of page-table entries and of protection
//! arguments.
use vstd::prelude::*;
use crate::mm::page_table::{PTE_V, PTE_R, PTE_W, PTE_X, PTE_U, with_valid};

verus! {

/// The flag bits of a byte, read arithmetically, and what setting one does.
pub proof fn lemma_u8_bits(f: u8)
    ensures
        (f & PTE_V != 0) == (f % 2 == 1),
        (f & PTE_R != 0) == ((f / 2) % 2 == 1),
        (f & PTE_W != 0) == ((f / 4) % 2 == 1),
        (f & PTE_X != 0) == ((f / 8) % 2 == 1),
        (f & PTE_U != 0) == ((f / 16) % 2 == 1),
        f | PTE_V == with_valid(f),
        (f / 2) % 2 == 0 ==> f | PTE_R == f + 2,
        (f / 4) % 2 == 0 ==> f | PTE_W == f + 4,
        (f / 8) % 2 == 0 ==> f | PTE_X == f + 8,
        PTE_V | PTE_U == 17,
{
    assert({
        &&& (f & 1u8 != 0u8) == (f % 2u8 == 1u8)
        &&& (f & 2u8 != 0u8) == ((f / 2u8) % 2u8 == 1u8)
        &&& (f & 4u8 != 0u8) == ((f / 4u8) % 2u8 == 1u8)
        &&& (f & 8u8 != 0u8) == ((f / 8u8) % 2u8 == 1u8)
        &&& (f & 16u8 != 0u8) == ((f / 16u8) % 2u8 == 1u8)
        &&& (f % 2u8 == 1u8 ==> f | 1u8 == f)
        &&& (f % 2u8 == 0u8 ==> f | 1u8 == f + 1u8)
        &&& ((f / 2u8) % 2u8 == 0u8 ==> f | 2u8 == f + 2u8)
        &&& ((f / 4u8) % 2u8 == 0u8 ==> f | 4u8 == f + 4u8)
        &&& ((f / 8u8) % 2u8 == 0u8 ==> f | 8u8 == f + 8u8)
        &&& 1u8 | 16u8 == 17u8
    }) by (bit_vector);
}

/// The bits of a protection argument, read arithmetically.
pub proof fn lemma_prot_bits(p: usize)
    ensures
        (p & !0x7usize != 0 || p & 0x7usize == 0) == (p == 0 || p > 7),
        (p & 0x1usize != 0) == (p % 2 == 1),
        (p & 0x2usize != 0) == ((p / 2) % 2 == 1),
        (p & 0x4usize != 0) == ((p / 4) % 2 == 1),
        p % 8 == p % 2 + 2 * ((p / 2) % 2) + 4 * ((p / 4) % 2),
{
    assert({
        &&& (p & !0x7usize != 0usize || p & 0x7usize == 0usize) == (p == 0usize || p > 7usize)
        &&& (p & 0x1usize != 0usize) == (p % 2usize == 1usize)
        &&& (p & 0x2usize != 0usize) == ((p / 2usize) % 2usize == 1usize)
        &&& (p & 0x4usize != 0usize) == ((p / 4usize) % 2usize == 1usize)
        &&& p % 8usize == p % 2usize + 2usize * ((p / 2usize) % 2usize) + 4usize * ((p / 4usize) % 2usize)
    }) by (bit_vector);
}

} // verus!
