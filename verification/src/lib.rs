//! Early-boot memory core for a RISC-V Sv39 supervisor kernel: a fixed-arena
//! physical frame allocator with an intrusive free list, and a three-level
//! page-table manager that installs virtual-to-physical mappings and tears
//! address spaces down, returning table frames to the allocator.

pub mod addr;
pub mod entry;
pub mod frame_alloc;
pub mod vmm;
