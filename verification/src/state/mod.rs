pub mod event_queue;
pub mod event_queue_bytes;
pub mod global;
pub mod market;
pub mod order;
pub mod position;
pub mod request_queue;
pub mod request_queue_bytes;
pub mod slab;
pub mod slab_bytes;
pub mod slab_check;
pub mod slot;
pub mod tree;
pub mod user_collateral;

use vstd::prelude::*;

verus! {

/// A 32-byte account address.
pub type Pubkey = [u8; 32];

} // verus!
