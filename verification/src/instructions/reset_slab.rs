use vstd::prelude::*;

use crate::constants::INVALID_INDEX;
use crate::error::PerpError;
use crate::state::slab::{LeafNode, Slab};

verus! {

/// What resetting the books writes.
pub struct ResetOrderBook {
    pub bids: Slab,
    pub asks: Slab,
}

impl ResetOrderBook {
    /// Makes both books empty books of the size they have: every slot is
    /// free again, whatever it held.
    pub fn process(&mut self) -> (result: Result<(), PerpError>)
        requires
            old(self).bids.nodes.len() < INVALID_INDEX,
            old(self).asks.nodes.len() < INVALID_INDEX,
        ensures
            result is Ok,
            final(self).bids.wf(),
            final(self).bids@ == Map::<u128, LeafNode>::empty(),
            final(self).bids.nodes.len() == old(self).bids.nodes.len(),
            final(self).asks.wf(),
            final(self).asks@ == Map::<u128, LeafNode>::empty(),
            final(self).asks.nodes.len() == old(self).asks.nodes.len(),
    {
        self.bids = Slab::with_capacity(self.bids.capacity());
        self.asks = Slab::with_capacity(self.asks.capacity());
        Ok(())
    }
}

} // verus!
