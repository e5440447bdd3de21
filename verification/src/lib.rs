//! Process-management system calls of a small RISC-V (Sv39) teaching kernel,
//! with the memory, scheduling and task state they act on modelled explicitly.

pub mod config;
pub mod mm;
pub mod syscall;
pub mod task;
pub mod temp_os;
