//! Memory-management and task-scheduling core of a small Sv39 kernel:
//! page tables over a modelled physical memory, PID allocation and
//! kernel-stack placement, task control blocks, and the processor's
//! dispatch / re-entry decisions.
pub mod block_dev;
pub mod config;
pub mod page_table;
pub mod pid;
pub mod processor;
pub mod task;
