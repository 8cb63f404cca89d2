use vstd::prelude::*;

verus! {

/// Bytes taken by the book header in persistent storage.
pub const SLAB_HEADER_LEN: usize = 32;

/// Bytes taken by one node slot in persistent storage: 8 of tag space and 80 of body.
pub const NODE_SIZE: usize = 88;

/// Tag of a slot that was never written.
pub const UNINITIALIZED: u32 = 0;

/// Tag of a slot that holds a branching node.
pub const INNER_NODE: u32 = 1;

/// Tag of a slot that holds a resting order.
pub const LEAF_NODE: u32 = 2;

/// Tag of a slot that is linked into the free list.
pub const FREE_NODE: u32 = 3;

/// Index that stands for "no slot".
pub const INVALID_INDEX: u32 = 0xFFFF_FFFF;

/// Number of orders that the bid book of a new market can hold.
pub const BID_SLAB_CAPACITY: usize = 1000;

/// Number of orders that the ask book of a new market can hold.
pub const ASK_SLAB_CAPACITY: usize = 1000;

/// Largest number of requests a queue holds.
pub const MAX_REQUESTS: usize = 32;

/// Largest number of requests handled by one run of the matching worker.
pub const MAX_TO_PROCESS: u32 = 8;

} // verus!
