//! Kernel constants.
use vstd::prelude::*;

verus! {

/// Size of a page in bytes.
pub const PAGE_SIZE: usize = 4096;

/// Number of bits of the offset inside a page.
pub const PAGE_SIZE_BITS: usize = 12;

/// Width of an Sv39 virtual address in bits.
pub const VA_WIDTH_SV39: usize = 39;

/// Width of an Sv39 virtual page number in bits.
pub const VPN_WIDTH_SV39: usize = 27;

/// Number of distinct Sv39 virtual addresses (`2^39`).
pub const VA_RANGE: u64 = 0x80_0000_0000;

/// Number of distinct Sv39 virtual page numbers (`2^27`).
pub const VPN_RANGE: usize = 0x800_0000;

/// Number of system call ids whose use is counted per task.
pub const MAX_SYSCALL_NUM: usize = 500;

/// The stride unit of the stride scheduler: a task of priority `p` advances
/// by `BIG_STRIDE / p` each time it is scheduled.
pub const BIG_STRIDE: usize = 0x10_0000;

} // verus!
