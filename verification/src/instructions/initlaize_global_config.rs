use vstd::prelude::*;

use crate::constants::MAX_REQUESTS;
use crate::error::PerpError;
use crate::state::event_queue::EventQueue;
use crate::state::global::GlobalConfig;
use crate::state::order::MatchedOrder;
use crate::state::request_queue::{RequestQueue, RequestType};
use crate::state::Pubkey;
use crate::utils::keys::{is_default, is_default_key, same_key};

verus! {

/// What creating the global settings reads and writes.
pub struct InitializeGlobalConfig {
    /// Who asks.
    pub authority: Pubkey,
    pub global_config: GlobalConfig,
    pub vault_quote: Pubkey,
    pub insurance_fund: Pubkey,
    pub fee_pool: Pubkey,
    pub request_queues: RequestQueue,
    pub request_queue_key: Pubkey,
    pub event_queues: EventQueue,
    pub event_queue_key: Pubkey,
}

/// The bump seeds found for the accounts of `InitializeGlobalConfig`.
pub struct InitializeGlobalConfigBumps {
    pub global_config: u8,
}

impl InitializeGlobalConfig {
    /// Whether `authority` may set up settings that name `owner` as theirs:
    /// they name nobody yet, or they name `authority`.
    pub open spec fn may_set_up(owner: Pubkey, authority: Pubkey) -> bool {
        is_default_key(owner) || owner == authority
    }

    /// Writes the global settings and makes both queues empty.
    ///
    /// Fails with `NotAuthorized` when the settings belong to someone else;
    /// nothing is changed then.
    pub fn process(
        &mut self,
        is_paused: bool,
        funding_interval_secs: u32,
        bump: &InitializeGlobalConfigBumps,
    ) -> (result: Result<(), PerpError>)
        ensures
            match result {
                Ok(()) => {
                    &&& Self::may_set_up(old(self).global_config.authority, old(self).authority)
                    &&& final(self).global_config == (GlobalConfig {
                        authority: old(self).authority,
                        vault_quote: old(self).vault_quote,
                        insurance_fund: old(self).insurance_fund,
                        fee_pool: old(self).fee_pool,
                        request_queue: old(self).request_queue_key,
                        event_queue: old(self).event_queue_key,
                        trading_paused: is_paused,
                        funding_interval_secs,
                        bump: bump.global_config,
                    })
                    &&& final(self).request_queues.wf()
                    &&& final(self).request_queues@ == Seq::<Result<RequestType, PerpError>>::empty()
                    &&& final(self).request_queues.capacity == MAX_REQUESTS
                    &&& final(self).request_queues.sequence == 0
                    &&& final(self).event_queues.wf()
                    &&& final(self).event_queues@ == Seq::<Result<MatchedOrder, PerpError>>::empty()
                    &&& final(self).event_queues.capacity == MAX_REQUESTS
                    &&& final(self).event_queues.sequence == 0
                },
                Err(e) => {
                    &&& e == PerpError::NotAuthorized
                    &&& !Self::may_set_up(old(self).global_config.authority, old(self).authority)
                    &&& *final(self) == *old(self)
                },
            },
    {
        if !is_default(&self.global_config.authority) && !same_key(
            &self.global_config.authority,
            &self.authority,
        ) {
            return Err(PerpError::NotAuthorized);
        }
        self.global_config.authority = self.authority;
        self.global_config.vault_quote = self.vault_quote;
        self.global_config.insurance_fund = self.insurance_fund;
        self.global_config.fee_pool = self.fee_pool;
        self.global_config.request_queue = self.request_queue_key;
        self.global_config.event_queue = self.event_queue_key;
        self.global_config.trading_paused = is_paused;
        self.global_config.funding_interval_secs = funding_interval_secs;
        self.global_config.bump = bump.global_config;
        self.request_queues.init();
        self.event_queues.init();
        Ok(())
    }
}

} // verus!
