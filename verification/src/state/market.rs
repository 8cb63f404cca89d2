use vstd::prelude::*;

use crate::error::PerpError;
use crate::state::order::Order;
use crate::state::Pubkey;

verus! {

/// One market: its price, its risk parameters and its funding index.
#[derive(Clone, Debug, PartialEq, Eq)]
pub struct MarketState {
    pub symbol: String,
    pub authority: Pubkey,
    pub oracle_pubkey: Pubkey,
    pub last_oracle_price: i64,
    pub last_oracle_ts: i64,
    pub bid: Pubkey,
    pub asks: Pubkey,
    pub im_bps: u16,
    pub mm_bps: u16,
    pub taker_fee_bps: u16,
    pub maker_fee_bps: u16,
    /// Share of the liquidation penalty that goes to the liquidator.
    pub liquidator_share_bps: u16,
    /// Share of the closed notional that a liquidated user is charged.
    pub liq_penalty_bps: u16,
    pub oracle_band_bps: u16,
    /// Sum of the funding rates applied so far, scaled by `FUNDING_SCALE`.
    pub cum_funding: i64,
    pub last_funding_ts: i64,
    pub max_funding_rate: i64,
    pub funding_interval_secs: u32,
    pub tick_size: u16,
    pub step_size: u8,
    pub min_order_notional: u64,
    pub bump: u8,
}

/// The parameters a market is created with.
#[derive(Clone, Copy, Debug, PartialEq, Eq)]
pub struct MarketParams {
    pub oracle_pubkey: Pubkey,
    pub last_oracle_price: i64,
    pub last_oracle_ts: i64,
    pub im_bps: u16,
    pub mm_bps: u16,
    pub oracle_band_bps: u16,
    pub taker_fee_bps: u16,
    pub maker_rebate_bps: u16,
    pub liq_penalty_bps: u16,
    pub liquidator_share_bps: u16,
    pub max_funding_rate: i64,
    pub cum_funding: i64,
    pub last_funding_ts: i64,
    pub funding_interval_secs: u32,
    pub tick_size: u16,
    pub step_size: u8,
    pub min_order_notional: u64,
}

impl MarketState {
    /// What the parameters of a market must satisfy.
    pub open spec fn wf(&self) -> bool {
        &&& self.mm_bps <= self.im_bps
        &&& self.funding_interval_secs > 0
    }

    /// The margin that an order of `qty` needs at price `mark`, or `None`
    /// when it cannot be computed in 128 bits.
    pub open spec fn initial_margin_of(&self, qty: u64, mark: int) -> Option<int> {
        if qty * mark * self.im_bps > u128::MAX {
            None
        } else {
            Some(qty * mark * self.im_bps / 10_000)
        }
    }

    /// The mark price: the last price the oracle gave.
    ///
    /// Fails with `InvalidAmount` when that price is not positive.
    pub fn get_mark_price(&self) -> (result: Result<u128, PerpError>)
        ensures
            match result {
                Ok(price) => self.last_oracle_price > 0 && price == self.last_oracle_price,
                Err(e) => self.last_oracle_price <= 0 && e == PerpError::InvalidAmount,
            },
    {
        if self.last_oracle_price <= 0 {
            return Err(PerpError::InvalidAmount);
        }
        Ok(self.last_oracle_price as u128)
    }

    /// The margin that `order` needs at the mark price: its notional times
    /// the initial-margin rate.
    ///
    /// Fails with `InvalidAmount` when there is no mark price, with
    /// `OrderNotionalTooSmall` when the notional is under the market's
    /// minimum, and with `MathOverflow` when the margin does not fit.
    pub fn compute_initial_margin(&self, order: Order) -> (result: Result<u128, PerpError>)
        ensures
            match result {
                Ok(margin) => {
                    &&& self.last_oracle_price > 0
                    &&& order.qty * self.last_oracle_price >= self.min_order_notional
                    &&& self.initial_margin_of(order.qty, self.last_oracle_price as int) == Some(
                        margin as int,
                    )
                },
                Err(e) => if self.last_oracle_price <= 0 {
                    e == PerpError::InvalidAmount
                } else if order.qty * self.last_oracle_price < self.min_order_notional {
                    e == PerpError::OrderNotionalTooSmall
                } else {
                    e == PerpError::MathOverflow && self.initial_margin_of(
                        order.qty,
                        self.last_oracle_price as int,
                    ) is None
                },
            },
    {
        let mark_price: u128 = match self.get_mark_price() {
            Ok(price) => price,
            Err(e) => {
                return Err(e);
            },
        };
        assert(order.qty * mark_price <= u64::MAX * i64::MAX) by (nonlinear_arith)
            requires
                order.qty <= u64::MAX,
                0 <= mark_price <= i64::MAX,
        ;
        let notional: u128 = (order.qty as u128) * mark_price;
        if notional < self.min_order_notional as u128 {
            return Err(PerpError::OrderNotionalTooSmall);
        }
        match notional.checked_mul(self.im_bps as u128) {
            Some(scaled) => Ok(scaled / 10_000),
            None => Err(PerpError::MathOverflow),
        }
    }
}

} // verus!
