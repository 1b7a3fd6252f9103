//! Simulation of two classical operating-system memory managers: a
//! contiguous allocator over a partitioned address space, and a demand-paged
//! virtual memory manager with FIFO, LRU and LFU replacement.

pub mod memory;
pub mod paging;
