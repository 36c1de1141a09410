//! A byte-granularity memory allocator over host-registered spans.
//!
//! The allocator manages one or more contiguous address ranges handed to it
//! by a host. Each range is carved into blocks; every block reserves a
//! fixed-size header's worth of capacity at its start, and the remainder is
//! payload. Allocation walks the block directory best-fit, splits oversized
//! free blocks, and coalesces physically adjacent free blocks.
//!
//! The directory is held by the allocator itself rather than written into
//! the managed spans, so the allocator never dereferences the addresses it
//! manages; addresses are plain numbers to it.

pub mod align;
pub mod block;
pub mod byte_alloc;
pub mod coalesce;
pub mod hashmap;
pub mod laws;
