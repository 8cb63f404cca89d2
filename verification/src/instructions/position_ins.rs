use vstd::prelude::*;

use crate::constants::MAX_TO_PROCESS;
use crate::engine::position_manager::{applied, PositionManager};
use crate::error::PerpError;
use crate::state::event_queue::EventQueue;
use crate::state::market::MarketState;
use crate::state::order::MatchedOrder;
use crate::state::position::Position;
use crate::state::user_collateral::UserCollateral;
use crate::state::Pubkey;
use crate::utils::keys::same_key;

verus! {

/// What settling a user's fills reads and writes.
pub struct PositionIns {
    pub market: MarketState,
    pub user_position: Position,
    pub event_queue: EventQueue,
    pub user_collateral: UserCollateral,
}

/// Position and collateral after the fills of `user_key` at the front of
/// `events` were applied, and how many they were.
///
/// At most `budget` events are taken, after `done` that were taken before.
/// The first event of another user ends it; an event that cannot be read or
/// applied ends it with its error.
pub open spec fn consume_model(
    position: Position,
    collateral: UserCollateral,
    cum_funding: i64,
    events: Seq<Result<MatchedOrder, PerpError>>,
    user_key: Pubkey,
    budget: nat,
    done: nat,
    now: i64,
) -> Result<(Position, UserCollateral, nat), PerpError>
    decreases budget,
{
    if budget == 0 || events.len() == 0 {
        Ok((position, collateral, done))
    } else {
        match events[0] {
            Err(e) => Err(e),
            Ok(event) => if event.user != user_key {
                Ok((position, collateral, done))
            } else {
                match applied(position, collateral, cum_funding, event, now) {
                    None => Err(PerpError::MathOverflow),
                    Some((next, credited)) => consume_model(
                        next,
                        credited,
                        cum_funding,
                        events.drop_first(),
                        user_key,
                        (budget - 1) as nat,
                        done + 1,
                        now,
                    ),
                }
            },
        }
    }
}

impl PositionIns {
    /// Applies to the user's position the fills of `user_key` that stand at
    /// the front of the event queue, up to `MAX_TO_PROCESS` of them.
    ///
    /// Fails with `QueueEmpty` when no event waits, with `EventNotForUser`
    /// when the first event belongs to another user, and with the error of
    /// an event that cannot be read or applied. When no event was applied,
    /// nothing is changed.
    pub fn process(&mut self, user_key: Pubkey, now: i64) -> (result: Result<(), PerpError>)
        requires
            old(self).event_queue.wf(),
        ensures
            final(self).event_queue.wf(),
            final(self).market == old(self).market,
            match consume_model(
                old(self).user_position,
                old(self).user_collateral,
                old(self).market.cum_funding,
                old(self).event_queue@,
                user_key,
                MAX_TO_PROCESS as nat,
                0,
                now,
            ) {
                Ok((position, collateral, taken)) => if taken == 0 {
                    &&& result == Err::<(), PerpError>(
                        if old(self).event_queue.count == 0 {
                            PerpError::QueueEmpty
                        } else {
                            PerpError::EventNotForUser
                        },
                    )
                    &&& *final(self) == *old(self)
                } else {
                    &&& result is Ok
                    &&& final(self).user_position == position
                    &&& final(self).user_collateral == collateral
                    &&& final(self).event_queue@ == old(self).event_queue@.skip(taken as int)
                    &&& final(self).event_queue.sequence == old(self).event_queue.sequence
                },
                Err(e) => result == Err::<(), PerpError>(e),
            },
    {
        let mut processed: u32 = 0;
        let ghost start = self.event_queue@;
        proof {
            assert(start.skip(0) =~= start);
        }
        loop
            invariant
                self.event_queue.wf(),
                self.market == old(self).market,
                processed <= MAX_TO_PROCESS,
                processed <= old(self).event_queue.count,
                start == old(self).event_queue@,
                self.event_queue@ == start.skip(processed as int),
                self.event_queue.count == old(self).event_queue.count - processed,
                self.event_queue.sequence == old(self).event_queue.sequence,
                processed == 0 ==> *self == *old(self),
                consume_model(
                    old(self).user_position,
                    old(self).user_collateral,
                    old(self).market.cum_funding,
                    start,
                    user_key,
                    MAX_TO_PROCESS as nat,
                    0,
                    now,
                ) == consume_model(
                    self.user_position,
                    self.user_collateral,
                    self.market.cum_funding,
                    self.event_queue@,
                    user_key,
                    (MAX_TO_PROCESS - processed) as nat,
                    processed as nat,
                    now,
                ),
            ensures
                self.event_queue.wf(),
                self.market == old(self).market,
                processed == 0 ==> *self == *old(self),
                processed == 0 ==> (old(self).event_queue.count == 0 <==> self.event_queue.count
                    == 0),
                consume_model(
                    old(self).user_position,
                    old(self).user_collateral,
                    old(self).market.cum_funding,
                    start,
                    user_key,
                    MAX_TO_PROCESS as nat,
                    0,
                    now,
                ) == Ok::<(Position, UserCollateral, nat), PerpError>(
                    (self.user_position, self.user_collateral, processed as nat),
                ),
                self.event_queue@ == start.skip(processed as int),
                self.event_queue.sequence == old(self).event_queue.sequence,
            decreases MAX_TO_PROCESS - processed,
        {
            if processed >= MAX_TO_PROCESS {
                break ;
            }
            if self.event_queue.count == 0 {
                break ;
            }
            let event: MatchedOrder = match self.event_queue.peek() {
                Ok(event) => event,
                Err(e) => {
                    return Err(e);
                },
            };
            if !same_key(&event.user, &user_key) {
                break ;
            }
            let ghost waiting = self.event_queue@;
            let mut position: Position = self.user_position;
            let mut collateral: UserCollateral = self.user_collateral;
            match PositionManager::apply_fill(
                &self.market,
                &mut position,
                &mut collateral,
                event,
                now,
            ) {
                Ok(()) => {},
                Err(e) => {
                    return Err(e);
                },
            }
            let popped = self.event_queue.pop();
            proof {
                assert(popped is Ok);
                assert(waiting.drop_first() =~= start.skip(processed + 1));
            }
            self.user_position = position;
            self.user_collateral = collateral;
            processed = processed + 1;
        }
        if processed == 0 {
            if self.event_queue.count == 0 {
                return Err(PerpError::QueueEmpty);
            }
            return Err(PerpError::EventNotForUser);
        }
        Ok(())
    }
}

} // verus!
