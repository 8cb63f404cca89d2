use vstd::prelude::*;

use crate::constants::MAX_REQUESTS;
use crate::error::PerpError;
use crate::state::event_queue::EventQueue;
use crate::state::order::MatchedOrder;
use crate::state::request_queue::{RequestQueue, RequestType};

verus! {

/// What resetting the queues writes.
pub struct ResetQueue {
    pub request_queue: RequestQueue,
    pub event_queue: EventQueue,
}

impl ResetQueue {
    /// Empties both queues: every slot is zeroed and the counters start over.
    pub fn process(&mut self) -> (result: Result<(), PerpError>)
        ensures
            result is Ok,
            final(self).request_queue.wf(),
            final(self).request_queue@ == Seq::<Result<RequestType, PerpError>>::empty(),
            final(self).request_queue.capacity == MAX_REQUESTS,
            final(self).request_queue.sequence == 0,
            final(self).event_queue.wf(),
            final(self).event_queue@ == Seq::<Result<MatchedOrder, PerpError>>::empty(),
            final(self).event_queue.capacity == MAX_REQUESTS,
            final(self).event_queue.sequence == 0,
    {
        self.request_queue.init();
        self.event_queue.init();
        Ok(())
    }
}

} // verus!
