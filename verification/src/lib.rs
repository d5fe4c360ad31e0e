//! A buddy-system memory allocator simulator.
//!
//! The allocator manages a fixed-size simulated memory region. It services
//! named allocation and free requests by keeping a free-list structure of
//! power-of-two blocks: on allocation the smallest sufficiently large free
//! block is taken and its excess is split back into maximal power-of-two
//! pieces; on free the block returns to the free list for its exact chunk
//! size (no coalescing of adjacent buddies takes place, by design).

pub mod driver;
pub mod free_lists;
pub mod laws;
pub mod memory_manager;
pub mod symbols;
pub mod utils;
