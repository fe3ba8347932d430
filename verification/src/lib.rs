//! Task management for a small teaching kernel: the scheduler's round-robin
//! decisions, per-task bookkeeping (system call counters, start time,
//! program break) and the `mmap`/`munmap`/`sbrk` system calls over a model of
//! each task's address space.
//!
//! Everything that touches hardware (context switches, reading the clock,
//! walking the real page table) is left to the caller: the functions here
//! take the clock reading as an argument and return the switch to perform.
pub mod config;
pub mod mm;
pub mod syscall;
pub mod task;
