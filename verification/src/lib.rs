//! A power-of-two buddy-system memory allocator.
//!
//! The allocator manages a set of caller-supplied address ranges and serves
//! power-of-two-sized, power-of-two-aligned allocations out of them.  Free
//! blocks are kept in 32 free lists, one per size class: class `c` holds
//! blocks of exactly `2^c` bytes, each aligned to its own size.  Allocation
//! splits larger blocks down to the requested class; deallocation merges a
//! freed block with its buddy as far up the classes as possible.
//!
//! Blocks are identified by their integer start address alone; the allocator
//! never reads or writes the memory it manages, so the caller remains
//! responsible for the validity of the ranges it registers.

pub mod arith;
pub mod heap;
pub mod linked_list;
pub mod locked;

pub use arith::prev_power_of_two;
pub use heap::AllocErr;
pub use heap::Heap;
pub use locked::alloc_with_rescue;
pub use locked::LockedHeap;
pub use locked::LockedHeapWithRescue;
pub use locked::Rescue;
