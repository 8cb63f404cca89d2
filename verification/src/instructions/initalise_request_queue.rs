use vstd::prelude::*;

use crate::constants::MAX_REQUESTS;
use crate::error::PerpError;
use crate::state::event_queue::EventQueue;
use crate::state::order::MatchedOrder;
use crate::state::request_queue::{RequestQueue, RequestType};

verus! {

/// The two queues at their creation.
pub struct InitaliseRequestQueues {
    pub request_queues: RequestQueue,
    pub event_queues: EventQueue,
}

impl InitaliseRequestQueues {
    /// Makes both queues empty queues of the standard capacity.
    pub fn process(&mut self) -> (result: Result<(), PerpError>)
        ensures
            result is Ok,
            final(self).request_queues.wf(),
            final(self).request_queues@ == Seq::<Result<RequestType, PerpError>>::empty(),
            final(self).request_queues.capacity == MAX_REQUESTS,
            final(self).request_queues.sequence == 0,
            final(self).event_queues.wf(),
            final(self).event_queues@ == Seq::<Result<MatchedOrder, PerpError>>::empty(),
            final(self).event_queues.capacity == MAX_REQUESTS,
            final(self).event_queues.sequence == 0,
    {
        self.request_queues.init();
        self.event_queues.init();
        Ok(())
    }
}

} // verus!
