use vstd::prelude::*;
use vstd::utf8::{encode_utf8, valid_utf8};

use crate::constants::{ASK_SLAB_CAPACITY, BID_SLAB_CAPACITY, NODE_SIZE, SLAB_HEADER_LEN};
use crate::error::PerpError;
use crate::state::market::{MarketParams, MarketState};
use crate::state::slab::{LeafNode, Slab};
use crate::state::Pubkey;
use crate::utils::keys::{is_default, is_default_key, same_key};

verus! {

/// What creating a market reads and writes.
pub struct InitializeMarket {
    /// Who asks.
    pub authority: Pubkey,
    pub market: MarketState,
    pub market_key: Pubkey,
    pub bids: Slab,
    pub bids_key: Pubkey,
    /// Bytes of storage at hand for the bid book.
    pub bids_space: usize,
    pub asks: Slab,
    pub asks_key: Pubkey,
    /// Bytes of storage at hand for the ask book.
    pub asks_space: usize,
}

/// The bump seeds found for the accounts of `InitializeMarket`.
pub struct InitializeMarketBumps {
    pub market: u8,
}

/// What the creation of a market reports.
pub struct MarketInitialized {
    pub market: Pubkey,
    pub symbol: String,
    pub authority: Pubkey,
}

/// `String::from_utf8` of the standard library: the text whose UTF-8 bytes
/// `bytes` are, or `None` when `bytes` are not UTF-8.
#[verifier::external_body]
fn text_from_utf8(bytes: Vec<u8>) -> (text: Option<String>)
    ensures
        text is Some <==> valid_utf8(bytes@),
        text matches Some(s) ==> encode_utf8(s@) == bytes@,
{
    String::from_utf8(bytes).ok()
}

/// Bytes that a book of `capacity` slots takes.
pub open spec fn book_bytes(capacity: int) -> int {
    SLAB_HEADER_LEN + capacity * NODE_SIZE
}

impl InitializeMarket {
    /// The error that forbids the creation of the market, if any: the first
    /// of a symbol that is not UTF-8, a market that belongs to someone else,
    /// parameters that no market can have, and books that do not fit their
    /// storage.
    pub open spec fn refusal(&self, market_symbol: Seq<u8>, params: MarketParams) -> Option<
        PerpError,
    > {
        if !valid_utf8(market_symbol) {
            Some(PerpError::InvalidSymbol)
        } else if !(is_default_key(self.market.authority) || self.market.authority
            == self.authority) {
            Some(PerpError::NotAuthorized)
        } else if params.mm_bps > params.im_bps || params.funding_interval_secs == 0 {
            Some(PerpError::InvalidMarketConfig)
        } else if self.bids_space < book_bytes(
            Slab::slots_for_orders(BID_SLAB_CAPACITY as int),
        ) || self.asks_space < book_bytes(Slab::slots_for_orders(ASK_SLAB_CAPACITY as int)) {
            Some(PerpError::InsufficientSpace)
        } else {
            None
        }
    }

    /// Creates the market `market_symbol` with the parameters `params`, and
    /// its two books, both empty and each with the slots for as many orders as
    /// the book of a new market holds.
    ///
    /// On failure nothing is changed.
    pub fn process(
        &mut self,
        market_symbol: Vec<u8>,
        params: MarketParams,
        bump: &InitializeMarketBumps,
    ) -> (result: Result<MarketInitialized, PerpError>)
        ensures
            match old(self).refusal(market_symbol@, params) {
                Some(e) => {
                    &&& result matches Err(error)
                    &&& error == e
                    &&& *final(self) == *old(self)
                },
                None => {
                    &&& result matches Ok(event)
                    &&& encode_utf8(event.symbol@) == market_symbol@
                    &&& event.market == old(self).market_key
                    &&& event.authority == old(self).authority
                    &&& final(self).market.wf()
                    &&& final(self).market.symbol@ == event.symbol@
                    &&& final(self).market == (MarketState {
                        symbol: final(self).market.symbol,
                        authority: old(self).authority,
                        oracle_pubkey: params.oracle_pubkey,
                        last_oracle_price: params.last_oracle_price,
                        last_oracle_ts: params.last_oracle_ts,
                        bid: old(self).bids_key,
                        asks: old(self).asks_key,
                        im_bps: params.im_bps,
                        mm_bps: params.mm_bps,
                        taker_fee_bps: params.taker_fee_bps,
                        maker_fee_bps: params.maker_rebate_bps,
                        liquidator_share_bps: params.liquidator_share_bps,
                        liq_penalty_bps: params.liq_penalty_bps,
                        oracle_band_bps: params.oracle_band_bps,
                        cum_funding: params.cum_funding,
                        last_funding_ts: params.last_funding_ts,
                        max_funding_rate: params.max_funding_rate,
                        funding_interval_secs: params.funding_interval_secs,
                        tick_size: params.tick_size,
                        step_size: params.step_size,
                        min_order_notional: params.min_order_notional,
                        bump: bump.market,
                    })
                    &&& final(self).bids.wf()
                    &&& final(self).bids@ == Map::<u128, LeafNode>::empty()
                    &&& final(self).bids.nodes.len() == Slab::slots_for_orders(
                        BID_SLAB_CAPACITY as int,
                    )
                    &&& final(self).asks.wf()
                    &&& final(self).asks@ == Map::<u128, LeafNode>::empty()
                    &&& final(self).asks.nodes.len() == Slab::slots_for_orders(
                        ASK_SLAB_CAPACITY as int,
                    )
                },
            },
    {
        let symbol: String = match text_from_utf8(market_symbol) {
            Some(symbol) => symbol,
            None => {
                return Err(PerpError::InvalidSymbol);
            },
        };
        if !is_default(&self.market.authority) && !same_key(
            &self.market.authority,
            &self.authority,
        ) {
            return Err(PerpError::NotAuthorized);
        }
        if params.mm_bps > params.im_bps || params.funding_interval_secs == 0 {
            return Err(PerpError::InvalidMarketConfig);
        }
        let bids: Slab = match Slab::initialize(
            self.bids_space,
            Slab::slots_for(BID_SLAB_CAPACITY),
        ) {
            Ok(slab) => slab,
            Err(e) => {
                return Err(e);
            },
        };
        let asks: Slab = match Slab::initialize(
            self.asks_space,
            Slab::slots_for(ASK_SLAB_CAPACITY),
        ) {
            Ok(slab) => slab,
            Err(e) => {
                return Err(e);
            },
        };
        let reported: String = symbol.clone();
        self.market.symbol = symbol;
        self.market.authority = self.authority;
        self.market.oracle_pubkey = params.oracle_pubkey;
        self.market.last_oracle_price = params.last_oracle_price;
        self.market.last_oracle_ts = params.last_oracle_ts;
        self.market.im_bps = params.im_bps;
        self.market.mm_bps = params.mm_bps;
        self.market.oracle_band_bps = params.oracle_band_bps;
        self.market.taker_fee_bps = params.taker_fee_bps;
        self.market.maker_fee_bps = params.maker_rebate_bps;
        self.market.liq_penalty_bps = params.liq_penalty_bps;
        self.market.liquidator_share_bps = params.liquidator_share_bps;
        self.market.max_funding_rate = params.max_funding_rate;
        self.market.cum_funding = params.cum_funding;
        self.market.last_funding_ts = params.last_funding_ts;
        self.market.funding_interval_secs = params.funding_interval_secs;
        self.market.tick_size = params.tick_size;
        self.market.step_size = params.step_size;
        self.market.min_order_notional = params.min_order_notional;
        self.market.bid = self.bids_key;
        self.market.asks = self.asks_key;
        self.market.bump = bump.market;
        self.bids = bids;
        self.asks = asks;
        Ok(MarketInitialized { market: self.market_key, symbol: reported, authority: self.authority })
    }
}

} // verus!
