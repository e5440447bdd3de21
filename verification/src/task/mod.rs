//! Tasks: their control blocks, the ready queue and its stride scheduler,
//! the processor that runs the current task, and the operations that the
//! system calls perform on the current task.
pub mod task;
pub mod manager;
pub mod processor;
pub mod heap;
pub mod memory_set;
