//! The second variant of the process system calls: memory mapping goes
//! through the task's address-space operations, and the trace call reads
//! frames directly and also checks the valid bit.
pub mod process;
