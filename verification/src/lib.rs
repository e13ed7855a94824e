//! Virtual-memory core of a teaching operating-system kernel.
//!
//! The library decides, for every virtual page of a process address space,
//! how that page is backed by physical memory, how it is reclaimed under
//! memory pressure, and how it is shared or privately copied across process
//! forks.  It combines a reference-counted copy-on-write sharing scheme, a
//! pluggable per-region backing policy, a FIFO swap-eviction manager, and a
//! page-fault dispatcher.
//!
//! The global singletons of a real kernel (active page table, swap table,
//! copy-on-write table, frame bitmap) appear here as explicitly constructed
//! context objects passed by reference into the subsystems that need them,
//! which makes the kernel's lock-order dependencies visible at call sites.
//! Hardware access, traps and I/O live outside the library.

pub mod paging;
pub mod frames;
pub mod cow;
pub mod fifo;
pub mod swap;
pub mod memory;
