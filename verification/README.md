# os_task

Task management for a small teaching kernel, verified with Verus.

- `src/task/`: the task control block and the task manager: round-robin choice of
  the next `Ready` task, suspension and exit, per-task system call counters, the
  program break, and `mmap`/`munmap` on the current task's address space.
  `laws.rs` holds the properties that span several operations.
- `src/mm.rs`: the model of an address space (framed areas over virtual pages,
  the page table root) and the pool of free frames.
- `src/syscall/process.rs`: the process system calls, and the writing of results
  into user buffers.
- `app/`: the global task manager and frame pool, the clock, and the entry points
  the rest of the kernel calls; it performs what the library decides.
