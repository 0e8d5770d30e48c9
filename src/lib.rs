//! A break-based heap engine: header-prefixed blocks, an address-ordered
//! free list with first-fit splitting and coalescing, and a data segment
//! that grows and shrinks with the topmost block.
use vstd::prelude::*;

pub mod arena;
pub mod block;
pub mod collam;
pub mod list;
pub mod sources;
pub mod util;

verus! {

/// Every payload size and every user pointer is a multiple of this.
pub const MIN_ALIGN: usize = 16;

} // verus!
