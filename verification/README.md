# rcore_os

The process-management system calls of a small RISC-V (Sv39) teaching
kernel — exit, yield, get_time, trace, mmap, munmap, sbrk — together with the
kernel state they act on, written in Verus and verified.

The kernel state is explicit: a system call receives the page table (or the
whole control block) of the current task, the physical memory with its frame
allocator, or the processor and the ready queue, and its contract says how
each of them changes.

## Layout

- `src/config.rs` — page size, Sv39 widths, the stride unit.
- `src/mm/` — virtual addresses and page numbers (`address`), page-table
  entries and the page table, modelled as the map from page numbers to the
  entries of their slots (`page_table`), flag-bit facts (`flags`), physical
  memory with its stack-like frame allocator (`memory`), and access to user
  ranges through a page table (`user_buffer`).
- `src/task/` — task control blocks, the ready queue with its stride
  scheduler (`manager`), the processor and task switching (`processor`), the
  heap and the program break (`heap`), and mapping ranges of pages for the
  current task (`memory_set`).
- `src/syscall/process.rs` — the system calls; mmap maps page by page and
  undoes its mappings when frames run out; trace request 2 reports how often
  the current task made a system call.
- `src/temp_os/process.rs` — a second variant of the same calls: mmap and
  munmap go through the task's address-space operations, and trace reads
  frames directly and also checks the valid bit.
- `app/lib.rs` — what the library does not do itself: the global ready queue
  and reading the clock, with the checks a caller owes the library.
- `tests/` — executable tests of the library.

Page tables are modelled one level deep: the entries of directory pages, and
the frames they occupy (and a failure to get one), are not part of the model.
A page number is looked up as given, not cut to its low 27 bits; the system
calls reduce every address to Sv39 before they look it up.
