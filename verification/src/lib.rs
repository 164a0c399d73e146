//! Memory-management core of a RISC-V Sv39 kernel: canonical addresses,
//! size-typed pages and frames, page-table entries, a buddy allocator for
//! physical frames and a three-level address-space mapper.

pub mod memory;
