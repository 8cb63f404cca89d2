use vstd::prelude::*;

use crate::error::PerpError;
use crate::state::market::MarketState;

verus! {

/// What setting the mark price writes.
pub struct SetMarkPrice {
    pub market: MarketState,
}

impl SetMarkPrice {
    /// Records `mark_price` as the last price of the oracle.
    ///
    /// Fails with `MathOverflow` when the price cannot be stored; the market
    /// is then unchanged.
    pub fn process(&mut self, mark_price: u64) -> (result: Result<(), PerpError>)
        ensures
            match result {
                Ok(()) => {
                    &&& mark_price <= i64::MAX
                    &&& final(self).market == (MarketState {
                        last_oracle_price: mark_price as i64,
                        ..old(self).market
                    })
                },
                Err(e) => {
                    &&& e == PerpError::MathOverflow
                    &&& mark_price > i64::MAX
                    &&& final(self).market == old(self).market
                },
            },
    {
        if mark_price > i64::MAX as u64 {
            return Err(PerpError::MathOverflow);
        }
        self.market.last_oracle_price = mark_price as i64;
        Ok(())
    }
}

} // verus!
