//! The virtual-memory and process-lifecycle core of a single-core kernel:
//! physical frames and their owners, three-level page tables, address
//! spaces made of regions, and tasks created, forked, replaced, ended and
//! reaped under a first-in-first-out scheduler. Every function states what
//! it does in its contract, and the contracts are proved.
use vstd::prelude::*;

pub mod config;
pub mod frame_allocator;
pub mod phys_memory;
pub mod page_table;
pub mod memory_set;
pub mod elf;
pub mod manager;
pub mod context;
pub mod task;
pub mod syscall;
pub mod trap;
pub mod user;
pub mod fs_layout;

