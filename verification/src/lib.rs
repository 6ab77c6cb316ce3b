//! A first-fit free-list heap allocator for bare-metal, single-core targets.
//!
//! `FreeListHeap` tracks the free regions of one fixed byte range, serves
//! requests by first-fit search with block splitting, and coalesces freed
//! regions with their neighbours. `CortexMHeap` wraps one such heap as the
//! process-wide allocator; on the target it must be driven from inside a
//! critical section (interrupts disabled), which the surrounding program
//! provides.

pub mod block;
pub mod free_list;
pub mod guarded;
pub mod laws;

pub use block::Block;
pub use free_list::AllocError;
pub use free_list::FreeListHeap;
pub use guarded::CortexMHeap;
