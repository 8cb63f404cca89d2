//! The matching worker: takes requests off the queue and carries them out.

use vstd::prelude::*;

use crate::constants::MAX_TO_PROCESS;
use crate::engine::matching_engine::{cancel_model, place_model, EngineModel, MatchingEngine};
use crate::error::PerpError;
use crate::state::event_queue::EventQueue;
use crate::state::request_queue::{RequestQueue, RequestType};
use crate::state::slab::Slab;

verus! {

/// What the matching worker reads and writes.
pub struct ProcessOrder {
    pub bids: Slab,
    pub asks: Slab,
    pub request_queue: RequestQueue,
    pub event_queue: EventQueue,
}

/// Carrying out one request.
pub open spec fn request_model(model: EngineModel, request: RequestType, now: i64) -> Result<
    EngineModel,
    PerpError,
> {
    match request {
        RequestType::Place(order) => place_model(model, order, now),
        RequestType::Cancel(cancel) => cancel_model(model, cancel),
    }
}

/// Carrying out the first `budget` of `requests`, or all of them when they
/// are fewer; the first request that cannot be read or carried out ends it
/// with its error.
pub open spec fn drain_model(
    model: EngineModel,
    requests: Seq<Result<RequestType, PerpError>>,
    budget: nat,
    now: i64,
) -> Result<EngineModel, PerpError>
    decreases budget,
{
    if budget == 0 || requests.len() == 0 {
        Ok(model)
    } else {
        match requests[0] {
            Err(e) => Err(e),
            Ok(request) => match request_model(model, request, now) {
                Err(e) => Err(e),
                Ok(next) => drain_model(next, requests.drop_first(), (budget - 1) as nat, now),
            },
        }
    }
}

/// How many requests one run takes off a queue of `waiting` requests.
pub open spec fn taken(waiting: int) -> int {
    if waiting < MAX_TO_PROCESS {
        waiting
    } else {
        MAX_TO_PROCESS as int
    }
}

impl ProcessOrder {
    /// Books and queues satisfy their invariants.
    pub open spec fn wf(&self) -> bool {
        &&& self.bids.wf()
        &&& self.asks.wf()
        &&& self.request_queue.wf()
        &&& self.event_queue.wf()
    }

    /// Books and event queue as plain values.
    pub open spec fn model(&self) -> EngineModel {
        EngineModel {
            bids: self.bids@,
            bids_capacity: self.bids.nodes.len() as int,
            asks: self.asks@,
            asks_capacity: self.asks.nodes.len() as int,
            events: self.event_queue@,
            event_capacity: self.event_queue.capacity as int,
            event_count: self.event_queue.count as int,
            event_sequence: self.event_queue.sequence as int,
        }
    }

    /// Takes up to `MAX_TO_PROCESS` requests off the queue and carries each
    /// out: an order is placed, a cancellation takes its order out of the book.
    ///
    /// Fails with the error of the first request that cannot be read or
    /// carried out; the caller is then to drop books and queues.
    pub fn process(&mut self, now: i64) -> (result: Result<(), PerpError>)
        requires
            old(self).wf(),
        ensures
            final(self).wf(),
            match drain_model(
                old(self).model(),
                old(self).request_queue@,
                MAX_TO_PROCESS as nat,
                now,
            ) {
                Ok(model) => {
                    &&& result is Ok
                    &&& final(self).model() == model
                    &&& final(self).request_queue@ == old(self).request_queue@.skip(
                        taken(old(self).request_queue.count as int),
                    )
                    &&& final(self).request_queue.sequence == old(self).request_queue.sequence
                },
                Err(e) => result == Err::<(), PerpError>(e),
            },
    {
        let mut processed: u32 = 0;
        let ghost start = old(self).request_queue@;
        proof {
            assert(start.skip(0) =~= start);
        }
        loop
            invariant
                self.wf(),
                processed <= MAX_TO_PROCESS,
                processed <= old(self).request_queue.count,
                start == old(self).request_queue@,
                self.request_queue@ == start.skip(processed as int),
                self.request_queue.count == old(self).request_queue.count - processed,
                self.request_queue.sequence == old(self).request_queue.sequence,
                drain_model(old(self).model(), start, MAX_TO_PROCESS as nat, now) == drain_model(
                    self.model(),
                    self.request_queue@,
                    (MAX_TO_PROCESS - processed) as nat,
                    now,
                ),
            ensures
                self.wf(),
                drain_model(old(self).model(), start, MAX_TO_PROCESS as nat, now) == Ok::<
                    EngineModel,
                    PerpError,
                >(self.model()),
                self.request_queue@ == start.skip(taken(old(self).request_queue.count as int)),
                self.request_queue.sequence == old(self).request_queue.sequence,
            decreases MAX_TO_PROCESS - processed,
        {
            if processed >= MAX_TO_PROCESS {
                break ;
            }
            if self.request_queue.count == 0 {
                break ;
            }
            let ghost waiting = self.request_queue@;
            let ghost model = self.model();
            let request: RequestType = match self.request_queue.pop() {
                Ok(request) => request,
                Err(e) => {
                    return Err(e);
                },
            };
            proof {
                assert(waiting.drop_first() =~= start.skip(processed + 1));
            }
            match request {
                RequestType::Place(order) => {
                    match MatchingEngine::process_place_order(self, order, now) {
                        Ok(()) => {},
                        Err(e) => {
                            return Err(e);
                        },
                    }
                },
                RequestType::Cancel(cancel) => {
                    match MatchingEngine::process_cancel_order(self, cancel) {
                        Ok(_) => {},
                        Err(e) => {
                            return Err(e);
                        },
                    }
                },
            }
            processed = processed + 1;
        }
        Ok(())
    }
}

} // verus!
