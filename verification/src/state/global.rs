use vstd::prelude::*;

use crate::state::Pubkey;

verus! {

/// Settings shared by every market.
#[derive(Clone, Copy, Debug, PartialEq, Eq)]
pub struct GlobalConfig {
    pub authority: Pubkey,
    pub vault_quote: Pubkey,
    pub insurance_fund: Pubkey,
    pub fee_pool: Pubkey,
    pub request_queue: Pubkey,
    pub event_queue: Pubkey,
    pub trading_paused: bool,
    pub funding_interval_secs: u32,
    pub bump: u8,
}

} // verus!
