//! The queue of requests between users and the matching worker.

use vstd::prelude::*;

use crate::codec::{
    decode_cancel, decode_order, encode_cancel, encode_order, lemma_cancel_injective,
    lemma_cancel_layout, lemma_cancel_round_trip, lemma_order_injective, lemma_order_layout,
    lemma_order_round_trip,
};
use crate::constants::MAX_REQUESTS;
use crate::error::PerpError;
use crate::state::order::{CancelOrder, Order};
use crate::state::slot::{
    framed, pad_to_slot, ring_at, ring_next, slot_prefix, zeroed, RequestSlot,
};

verus! {

/// What a user asks of the matching worker.
#[derive(Clone, Copy, Debug, PartialEq, Eq)]
pub enum RequestType {
    Place(Order),
    Cancel(CancelOrder),
}

/// The bytes of a request: one byte that tells the kind, then the record.
pub open spec fn encode_request(request: RequestType) -> Seq<u8> {
    match request {
        RequestType::Place(order) => seq![0u8] + encode_order(order),
        RequestType::Cancel(cancel) => seq![1u8] + encode_cancel(cancel),
    }
}

/// The request that `bytes` encode, if they encode one.
pub open spec fn decode_request(bytes: Seq<u8>) -> Option<RequestType> {
    if exists|request: RequestType| encode_request(request) == bytes {
        Some(choose|request: RequestType| encode_request(request) == bytes)
    } else {
        None
    }
}

/// Different requests have different encodings.
pub proof fn lemma_request_injective(a: RequestType, b: RequestType)
    requires
        encode_request(a) == encode_request(b),
    ensures
        a == b,
{
    let bytes = encode_request(a);
    match a {
        RequestType::Place(x) => {
            assert(bytes[0] == 0);
            match b {
                RequestType::Place(y) => {
                    assert(encode_order(x) =~= bytes.subrange(1, bytes.len() as int));
                    assert(encode_order(y) =~= bytes.subrange(1, bytes.len() as int));
                    lemma_order_injective(x, y);
                },
                RequestType::Cancel(y) => {
                    assert(encode_request(b)[0] == 1);
                },
            }
        },
        RequestType::Cancel(x) => {
            assert(bytes[0] == 1);
            match b {
                RequestType::Place(y) => {
                    assert(encode_request(b)[0] == 0);
                },
                RequestType::Cancel(y) => {
                    assert(encode_cancel(x) =~= bytes.subrange(1, bytes.len() as int));
                    assert(encode_cancel(y) =~= bytes.subrange(1, bytes.len() as int));
                    lemma_cancel_injective(x, y);
                },
            }
        },
    }
}

/// Decoding gives back what was encoded.
pub proof fn lemma_request_round_trip(request: RequestType)
    ensures
        decode_request(encode_request(request)) == Some(request),
        0 < encode_request(request).len() <= 128,
{
    let back = choose|other: RequestType| encode_request(other) == encode_request(request);
    lemma_request_injective(back, request);
    match request {
        RequestType::Place(order) => {
            lemma_order_layout(order);
        },
        RequestType::Cancel(cancel) => {
            lemma_cancel_layout(cancel);
        },
    }
}

impl RequestType {
    /// The bytes of the request.
    pub fn encode(&self) -> (bytes: Vec<u8>)
        ensures
            bytes@ == encode_request(*self),
            0 < bytes@.len() <= 128,
    {
        let mut out: Vec<u8> = Vec::new();
        match self {
            RequestType::Place(order) => {
                out.push(0);
                let mut body = order.encode();
                out.append(&mut body);
            },
            RequestType::Cancel(cancel) => {
                out.push(1);
                let mut body = cancel.encode();
                out.append(&mut body);
            },
        }
        proof {
            assert(out@ =~= encode_request(*self));
        }
        out
    }

    /// The request that `bytes` encode; `None` when they encode none.
    pub fn decode(bytes: &[u8]) -> (request: Option<RequestType>)
        ensures
            request == decode_request(bytes@),
    {
        if bytes.len() == 0 {
            proof {
                assert forall|other: RequestType| encode_request(other) != bytes@ by {
                    lemma_request_round_trip(other);
                }
            }
            return None;
        }
        let body = vstd::slice::slice_subrange(bytes, 1, bytes.len());
        let decoded: Option<RequestType> = if bytes[0] == 0 {
            match Order::decode(body) {
                Some(order) => Some(RequestType::Place(order)),
                None => None,
            }
        } else if bytes[0] == 1 {
            match CancelOrder::decode(body) {
                Some(cancel) => Some(RequestType::Cancel(cancel)),
                None => None,
            }
        } else {
            None
        };
        proof {
            match decoded {
                Some(request) => {
                    assert(encode_request(request) =~= bytes@);
                    lemma_request_round_trip(request);
                },
                None => {
                    assert forall|other: RequestType| encode_request(other) != bytes@ by {
                        if encode_request(other) == bytes@ {
                            match other {
                                RequestType::Place(order) => {
                                    assert(encode_order(order) =~= body@);
                                },
                                RequestType::Cancel(cancel) => {
                                    assert(encode_cancel(cancel) =~= body@);
                                },
                            }
                        }
                    }
                },
            }
        }
        decoded
    }
}

impl RequestSlot {
    /// A slot that holds nothing.
    pub fn empty() -> (slot: Self)
        ensures
            slot.payload() == Err::<RequestType, PerpError>(PerpError::QueueEmpty),
            zeroed(slot.data@, slot.len, slot.is_occupied),
    {
        RequestSlot { data: [0u8; 128], len: 0, is_occupied: 0 }
    }

    /// The request in the slot; `QueueEmpty` when the slot is not occupied, and
    /// `DeserializationFailed` when its bytes encode none.
    pub open spec fn payload(&self) -> Result<RequestType, PerpError> {
        match framed(self.data@, self.len, self.is_occupied) {
            Some(bytes) => match decode_request(bytes) {
                Some(request) => Ok(request),
                None => Err(PerpError::DeserializationFailed),
            },
            None => Err(
                if self.is_occupied != 1 {
                    PerpError::QueueEmpty
                } else {
                    PerpError::DeserializationFailed
                },
            ),
        }
    }
}

/// A ring of request slots. `head` is the slot read next, `tail` the slot
/// written next; `sequence` counts the requests ever put in.
pub struct RequestQueue {
    pub head: u16,
    pub tail: u16,
    pub count: u16,
    pub capacity: u16,
    pub sequence: u64,
    pub slots: Vec<RequestSlot>,
}

impl View for RequestQueue {
    type V = Seq<Result<RequestType, PerpError>>;

    /// What waits in the queue, oldest first; an error stands for a slot that
    /// holds no request.
    open spec fn view(&self) -> Seq<Result<RequestType, PerpError>> {
        Seq::new(
            self.count as nat,
            |i: int| self.slots[ring_at(self.head as int, i, self.capacity as int)].payload(),
        )
    }
}

impl RequestQueue {
    /// The invariant of the ring: `count` slots, starting at `head`, end at `tail`.
    pub open spec fn wf(&self) -> bool {
        &&& self.capacity > 0
        &&& self.slots.len() == self.capacity
        &&& self.head < self.capacity
        &&& self.tail < self.capacity
        &&& self.count <= self.capacity
        &&& self.tail == ring_at(self.head as int, self.count as int, self.capacity as int)
    }

    /// Whether the queue is what is left of `pushed`, put in one by one from
    /// the start, after the first `popped` of them were taken out: the rest
    /// waits in the order in which it was put in, `count` is its length, and
    /// `sequence` counts everything that was put in.
    pub open spec fn tracks(&self, pushed: Seq<RequestType>, popped: nat) -> bool {
        &&& self.wf()
        &&& popped <= pushed.len()
        &&& self@ == Seq::new(
            (pushed.len() - popped) as nat,
            |i: int| Ok::<RequestType, PerpError>(pushed[popped + i]),
        )
        &&& self.count == pushed.len() - popped
        &&& self.sequence == pushed.len()
    }

    /// A queue that was emptied is what is left of nothing.
    ///
    /// `queue` is a queue as `with_capacity`, `init` and `reset` leave it.
    pub proof fn lemma_empty_tracks(queue: RequestQueue)
        requires
            queue.wf(),
            queue@ == Seq::<Result<RequestType, PerpError>>::empty(),
            queue.count == 0,
            queue.sequence == 0,
        ensures
            queue.tracks(Seq::empty(), 0),
    {
        assert(queue@ =~= Seq::new(
            0nat,
            |i: int| Ok::<RequestType, PerpError>(Seq::<RequestType>::empty()[0 + i]),
        ));
    }

    /// A successful `push` of `request` puts it behind everything that waits.
    ///
    /// `before` and `after` are the queue before and after the `push`.
    pub proof fn lemma_push_tracks(
        before: RequestQueue,
        after: RequestQueue,
        request: RequestType,
        pushed: Seq<RequestType>,
        popped: nat,
    )
        requires
            before.tracks(pushed, popped),
            after.wf(),
            after@ == before@.push(Ok(request)),
            after.count == before.count + 1,
            after.sequence == before.sequence + 1,
        ensures
            after.tracks(pushed.push(request), popped),
    {
        let longer = pushed.push(request);
        assert(after@ =~= Seq::new(
            (longer.len() - popped) as nat,
            |i: int| Ok::<RequestType, PerpError>(longer[popped + i]),
        ));
    }

    /// A successful `pop` returns what was put in first among everything
    /// that waits.
    ///
    /// `before` and `after` are the queue before and after the `pop`,
    /// `taken` is what it returned.
    pub proof fn lemma_pop_tracks(
        before: RequestQueue,
        after: RequestQueue,
        taken: RequestType,
        pushed: Seq<RequestType>,
        popped: nat,
    )
        requires
            before.tracks(pushed, popped),
            before.count > 0,
            before@[0] == Ok::<RequestType, PerpError>(taken),
            after.wf(),
            after@ == before@.drop_first(),
            after.count == before.count - 1,
            after.sequence == before.sequence,
        ensures
            popped < pushed.len(),
            taken == pushed[popped as int],
            after.tracks(pushed, popped + 1),
    {
        assert(after@ =~= Seq::new(
            (pushed.len() - (popped + 1)) as nat,
            |i: int| Ok::<RequestType, PerpError>(pushed[popped + 1 + i]),
        ));
    }

    /// An empty queue of `capacity` slots, all of them zeroed.
    pub fn with_capacity(capacity: u16) -> (queue: Self)
        requires
            capacity > 0,
        ensures
            queue.wf(),
            queue@ == Seq::<Result<RequestType, PerpError>>::empty(),
            queue.capacity == capacity,
            queue.head == 0,
            queue.tail == 0,
            queue.count == 0,
            queue.sequence == 0,
            forall|i: int|
                0 <= i < capacity ==> zeroed(
                    (#[trigger] queue.slots[i]).data@,
                    queue.slots[i].len,
                    queue.slots[i].is_occupied,
                ),
    {
        let mut slots: Vec<RequestSlot> = Vec::new();
        let mut i: u16 = 0;
        while i < capacity
            invariant
                i <= capacity,
                slots.len() == i,
                forall|j: int|
                    0 <= j < i ==> zeroed(
                        (#[trigger] slots[j]).data@,
                        slots[j].len,
                        slots[j].is_occupied,
                    ),
            decreases capacity - i,
        {
            slots.push(RequestSlot::empty());
            i += 1;
        }
        let queue = RequestQueue { head: 0, tail: 0, count: 0, capacity, sequence: 0, slots };
        assert(queue@ =~= Seq::<Result<RequestType, PerpError>>::empty());
        queue
    }

    /// Empties the queue: every slot is zeroed, the counters start over, and
    /// the capacity is the standard one.
    pub fn init(&mut self)
        ensures
            final(self).wf(),
            final(self)@ == Seq::<Result<RequestType, PerpError>>::empty(),
            final(self).capacity == MAX_REQUESTS,
            final(self).head == 0,
            final(self).tail == 0,
            final(self).count == 0,
            final(self).sequence == 0,
            forall|i: int|
                0 <= i < MAX_REQUESTS ==> zeroed(
                    (#[trigger] final(self).slots[i]).data@,
                    final(self).slots[i].len,
                    final(self).slots[i].is_occupied,
                ),
    {
        *self = Self::with_capacity(MAX_REQUESTS as u16);
    }

    /// Empties the queue, as `init` does.
    pub fn reset(&mut self)
        ensures
            final(self).wf(),
            final(self)@ == Seq::<Result<RequestType, PerpError>>::empty(),
            final(self).capacity == MAX_REQUESTS,
            final(self).head == 0,
            final(self).tail == 0,
            final(self).count == 0,
            final(self).sequence == 0,
            forall|i: int|
                0 <= i < MAX_REQUESTS ==> zeroed(
                    (#[trigger] final(self).slots[i]).data@,
                    final(self).slots[i].len,
                    final(self).slots[i].is_occupied,
                ),
    {
        self.init();
    }

    /// Writes `req` into `slot` and marks the slot occupied.
    fn encode_into_slot(slot: &mut RequestSlot, req: &RequestType)
        ensures
            final(slot).payload() == Ok::<RequestType, PerpError>(*req),
    {
        let encoded: Vec<u8> = req.encode();
        slot.data = pad_to_slot(&encoded);
        slot.is_occupied = 1;
        slot.len = encoded.len() as u16;
        proof {
            lemma_request_round_trip(*req);
        }
    }

    /// Reads the request in `slot`.
    ///
    /// Fails with `QueueEmpty` when the slot is not occupied, and with
    /// `DeserializationFailed` when its bytes encode no request.
    fn decode_from_slot(slot: &RequestSlot) -> (result: Result<RequestType, PerpError>)
        ensures
            result == slot.payload(),
    {
        if slot.is_occupied != 1 {
            return Err(PerpError::QueueEmpty);
        }
        let len: usize = slot.len as usize;
        if len == 0 || len > 128 {
            return Err(PerpError::DeserializationFailed);
        }
        let bytes: Vec<u8> = slot_prefix(&slot.data, len);
        match RequestType::decode(bytes.as_slice()) {
            Some(request) => Ok(request),
            None => Err(PerpError::DeserializationFailed),
        }
    }

    /// Puts `req` at the end of the queue.
    ///
    /// Fails with `QueueFull` when every slot is taken, and with
    /// `MathOverflow` when the sequence number cannot grow; the queue is then
    /// unchanged.
    pub fn push(&mut self, req: &RequestType) -> (result: Result<(), PerpError>)
        requires
            old(self).wf(),
        ensures
            final(self).wf(),
            final(self).capacity == old(self).capacity,
            final(self).head == old(self).head,
            match result {
                Ok(()) => {
                    &&& old(self).count < old(self).capacity
                    &&& old(self).sequence < u64::MAX
                    &&& final(self)@ == old(self)@.push(Ok(*req))
                    &&& final(self).count == old(self).count + 1
                    &&& final(self).sequence == old(self).sequence + 1
                    &&& final(self).tail == ring_next(
                        old(self).tail as int,
                        old(self).capacity as int,
                    )
                },
                Err(e) => {
                    &&& *final(self) == *old(self)
                    &&& e == if old(self).count >= old(self).capacity {
                        PerpError::QueueFull
                    } else {
                        PerpError::MathOverflow
                    }
                    &&& old(self).count >= old(self).capacity || old(self).sequence == u64::MAX
                },
            },
    {
        if self.count >= self.capacity {
            return Err(PerpError::QueueFull);
        }
        if self.sequence == u64::MAX {
            return Err(PerpError::MathOverflow);
        }
        let idx: usize = self.tail as usize;
        let mut slot: RequestSlot = self.slots[idx];
        Self::encode_into_slot(&mut slot, req);
        self.slots[idx] = slot;
        self.tail = if self.tail + 1 == self.capacity {
            0
        } else {
            self.tail + 1
        };
        self.count = self.count + 1;
        self.sequence = self.sequence + 1;
        proof {
            assert(self@ =~= old(self)@.push(Ok(*req)));
        }
        Ok(())
    }

    /// The request at the front of the queue, which stays there.
    ///
    /// Fails as `pop` does.
    pub fn peek(&self) -> (result: Result<RequestType, PerpError>)
        requires
            self.wf(),
        ensures
            result == if self.count == 0 {
                Err(PerpError::QueueEmpty)
            } else {
                self@[0]
            },
    {
        if self.count == 0 {
            return Err(PerpError::QueueEmpty);
        }
        Self::decode_from_slot(&self.slots[self.head as usize])
    }

    /// Takes the request at the front out of the queue.
    ///
    /// Fails with `QueueEmpty` when nothing waits or the front slot is not
    /// occupied, and with `DeserializationFailed` when the bytes of the front
    /// slot encode no request; the queue is then unchanged.
    pub fn pop(&mut self) -> (result: Result<RequestType, PerpError>)
        requires
            old(self).wf(),
        ensures
            final(self).wf(),
            final(self).capacity == old(self).capacity,
            final(self).sequence == old(self).sequence,
            final(self).tail == old(self).tail,
            match result {
                Ok(request) => {
                    &&& old(self).count > 0
                    &&& old(self)@[0] == Ok::<RequestType, PerpError>(request)
                    &&& final(self)@ == old(self)@.drop_first()
                    &&& final(self).count == old(self).count - 1
                    &&& final(self).head == ring_next(
                        old(self).head as int,
                        old(self).capacity as int,
                    )
                },
                Err(e) => {
                    &&& *final(self) == *old(self)
                    &&& if old(self).count == 0 {
                        e == PerpError::QueueEmpty
                    } else {
                        old(self)@[0] == Err::<RequestType, PerpError>(e)
                    }
                },
            },
    {
        if self.count == 0 {
            return Err(PerpError::QueueEmpty);
        }
        let idx: usize = self.head as usize;
        let request: RequestType = match Self::decode_from_slot(&self.slots[idx]) {
            Ok(request) => request,
            Err(e) => {
                return Err(e);
            },
        };
        let mut slot: RequestSlot = self.slots[idx];
        slot.is_occupied = 0;
        slot.len = 0;
        self.slots[idx] = slot;
        self.head = if self.head + 1 == self.capacity {
            0
        } else {
            self.head + 1
        };
        self.count = self.count - 1;
        proof {
            assert(self@ =~= old(self)@.drop_first());
        }
        Ok(request)
    }
}

} // verus!
