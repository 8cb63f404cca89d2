//! The queue of fills between the matching worker and the position processors.

use vstd::prelude::*;

use crate::codec::{decode_matched, lemma_matched_layout, lemma_matched_round_trip};
use crate::constants::MAX_REQUESTS;
use crate::error::PerpError;
use crate::state::order::MatchedOrder;
use crate::state::slot::{
    framed, pad_to_slot, ring_at, ring_next, slot_prefix, zeroed, EventSlot,
};

verus! {

impl EventSlot {
    /// A slot that holds nothing.
    pub fn empty() -> (slot: Self)
        ensures
            slot.payload() == Err::<MatchedOrder, PerpError>(PerpError::QueueEmpty),
            zeroed(slot.data@, slot.len, slot.is_occupied),
    {
        EventSlot { data: [0u8; 128], len: 0, is_occupied: 0 }
    }

    /// The event in the slot; `QueueEmpty` when the slot is not occupied, and
    /// `DeserializationFailed` when its bytes encode none.
    pub open spec fn payload(&self) -> Result<MatchedOrder, PerpError> {
        match framed(self.data@, self.len, self.is_occupied) {
            Some(bytes) => match decode_matched(bytes) {
                Some(event) => Ok(event),
                None => Err(PerpError::DeserializationFailed),
            },
            None => Err(
                if self.is_occupied != 1 {
                    PerpError::QueueEmpty
                } else {
                    PerpError::DeserializationFailed
                },
            ),
        }
    }
}

/// A ring of event slots. `head` is the slot read next, `tail` the slot
/// written next; `sequence` counts the events ever put in.
pub struct EventQueue {
    pub head: u16,
    pub tail: u16,
    pub count: u16,
    pub capacity: u16,
    pub sequence: u64,
    pub slots: Vec<EventSlot>,
}

impl View for EventQueue {
    type V = Seq<Result<MatchedOrder, PerpError>>;

    /// What waits in the queue, oldest first; an error stands for a slot that
    /// holds no event.
    open spec fn view(&self) -> Seq<Result<MatchedOrder, PerpError>> {
        Seq::new(
            self.count as nat,
            |i: int| self.slots[ring_at(self.head as int, i, self.capacity as int)].payload(),
        )
    }
}

impl EventQueue {
    /// The invariant of the ring: `count` slots, starting at `head`, end at `tail`.
    pub open spec fn wf(&self) -> bool {
        &&& self.capacity > 0
        &&& self.slots.len() == self.capacity
        &&& self.head < self.capacity
        &&& self.tail < self.capacity
        &&& self.count <= self.capacity
        &&& self.tail == ring_at(self.head as int, self.count as int, self.capacity as int)
    }

    /// Whether the queue is what is left of `pushed`, put in one by one from
    /// the start, after the first `popped` of them were taken out: the rest
    /// waits in the order in which it was put in, `count` is its length, and
    /// `sequence` counts everything that was put in.
    pub open spec fn tracks(&self, pushed: Seq<MatchedOrder>, popped: nat) -> bool {
        &&& self.wf()
        &&& popped <= pushed.len()
        &&& self@ == Seq::new(
            (pushed.len() - popped) as nat,
            |i: int| Ok::<MatchedOrder, PerpError>(pushed[popped + i]),
        )
        &&& self.count == pushed.len() - popped
        &&& self.sequence == pushed.len()
    }

    /// A queue that was emptied is what is left of nothing.
    ///
    /// `queue` is a queue as `with_capacity`, `init` and `reset` leave it.
    pub proof fn lemma_empty_tracks(queue: EventQueue)
        requires
            queue.wf(),
            queue@ == Seq::<Result<MatchedOrder, PerpError>>::empty(),
            queue.count == 0,
            queue.sequence == 0,
        ensures
            queue.tracks(Seq::empty(), 0),
    {
        assert(queue@ =~= Seq::new(
            0nat,
            |i: int| Ok::<MatchedOrder, PerpError>(Seq::<MatchedOrder>::empty()[0 + i]),
        ));
    }

    /// A successful `push` of `event` puts it behind everything that waits.
    ///
    /// `before` and `after` are the queue before and after the `push`.
    pub proof fn lemma_push_tracks(
        before: EventQueue,
        after: EventQueue,
        event: MatchedOrder,
        pushed: Seq<MatchedOrder>,
        popped: nat,
    )
        requires
            before.tracks(pushed, popped),
            after.wf(),
            after@ == before@.push(Ok(event)),
            after.count == before.count + 1,
            after.sequence == before.sequence + 1,
        ensures
            after.tracks(pushed.push(event), popped),
    {
        let longer = pushed.push(event);
        assert(after@ =~= Seq::new(
            (longer.len() - popped) as nat,
            |i: int| Ok::<MatchedOrder, PerpError>(longer[popped + i]),
        ));
    }

    /// A successful `pop` returns what was put in first among everything
    /// that waits.
    ///
    /// `before` and `after` are the queue before and after the `pop`,
    /// `taken` is what it returned.
    pub proof fn lemma_pop_tracks(
        before: EventQueue,
        after: EventQueue,
        taken: MatchedOrder,
        pushed: Seq<MatchedOrder>,
        popped: nat,
    )
        requires
            before.tracks(pushed, popped),
            before.count > 0,
            before@[0] == Ok::<MatchedOrder, PerpError>(taken),
            after.wf(),
            after@ == before@.drop_first(),
            after.count == before.count - 1,
            after.sequence == before.sequence,
        ensures
            popped < pushed.len(),
            taken == pushed[popped as int],
            after.tracks(pushed, popped + 1),
    {
        assert(after@ =~= Seq::new(
            (pushed.len() - (popped + 1)) as nat,
            |i: int| Ok::<MatchedOrder, PerpError>(pushed[popped + 1 + i]),
        ));
    }

    /// An empty queue of `capacity` slots, all of them zeroed.
    pub fn with_capacity(capacity: u16) -> (queue: Self)
        requires
            capacity > 0,
        ensures
            queue.wf(),
            queue@ == Seq::<Result<MatchedOrder, PerpError>>::empty(),
            queue.capacity == capacity,
            queue.head == 0,
            queue.tail == 0,
            queue.count == 0,
            queue.sequence == 0,
            forall|i: int|
                0 <= i < capacity ==> zeroed(
                    (#[trigger] queue.slots[i]).data@,
                    queue.slots[i].len,
                    queue.slots[i].is_occupied,
                ),
    {
        let mut slots: Vec<EventSlot> = Vec::new();
        let mut i: u16 = 0;
        while i < capacity
            invariant
                i <= capacity,
                slots.len() == i,
                forall|j: int|
                    0 <= j < i ==> zeroed(
                        (#[trigger] slots[j]).data@,
                        slots[j].len,
                        slots[j].is_occupied,
                    ),
            decreases capacity - i,
        {
            slots.push(EventSlot::empty());
            i += 1;
        }
        let queue = EventQueue { head: 0, tail: 0, count: 0, capacity, sequence: 0, slots };
        assert(queue@ =~= Seq::<Result<MatchedOrder, PerpError>>::empty());
        queue
    }

    /// Empties the queue: every slot is zeroed, the counters start over, and
    /// the capacity is the standard one.
    pub fn init(&mut self)
        ensures
            final(self).wf(),
            final(self)@ == Seq::<Result<MatchedOrder, PerpError>>::empty(),
            final(self).capacity == MAX_REQUESTS,
            final(self).head == 0,
            final(self).tail == 0,
            final(self).count == 0,
            final(self).sequence == 0,
            forall|i: int|
                0 <= i < MAX_REQUESTS ==> zeroed(
                    (#[trigger] final(self).slots[i]).data@,
                    final(self).slots[i].len,
                    final(self).slots[i].is_occupied,
                ),
    {
        *self = Self::with_capacity(MAX_REQUESTS as u16);
    }

    /// Empties the queue, as `init` does.
    pub fn reset(&mut self)
        ensures
            final(self).wf(),
            final(self)@ == Seq::<Result<MatchedOrder, PerpError>>::empty(),
            final(self).capacity == MAX_REQUESTS,
            final(self).head == 0,
            final(self).tail == 0,
            final(self).count == 0,
            final(self).sequence == 0,
            forall|i: int|
                0 <= i < MAX_REQUESTS ==> zeroed(
                    (#[trigger] final(self).slots[i]).data@,
                    final(self).slots[i].len,
                    final(self).slots[i].is_occupied,
                ),
    {
        self.init();
    }

    /// Writes `ev` into `slot` and marks the slot occupied.
    fn encode_into_slot(slot: &mut EventSlot, ev: &MatchedOrder)
        ensures
            final(slot).payload() == Ok::<MatchedOrder, PerpError>(*ev),
    {
        let encoded: Vec<u8> = ev.encode();
        slot.data = pad_to_slot(&encoded);
        slot.is_occupied = 1;
        slot.len = encoded.len() as u16;
        proof {
            lemma_matched_round_trip(*ev);
            lemma_matched_layout(*ev);
        }
    }

    /// Reads the event in `slot`.
    ///
    /// Fails with `QueueEmpty` when the slot is not occupied, and with
    /// `DeserializationFailed` when its bytes encode no event.
    fn decode_from_slot(slot: &EventSlot) -> (result: Result<MatchedOrder, PerpError>)
        ensures
            result == slot.payload(),
    {
        if slot.is_occupied != 1 {
            return Err(PerpError::QueueEmpty);
        }
        let len: usize = slot.len as usize;
        if len == 0 || len > 128 {
            return Err(PerpError::DeserializationFailed);
        }
        let bytes: Vec<u8> = slot_prefix(&slot.data, len);
        match MatchedOrder::decode(bytes.as_slice()) {
            Some(event) => Ok(event),
            None => Err(PerpError::DeserializationFailed),
        }
    }

    /// Puts `ev` at the end of the queue.
    ///
    /// Fails with `QueueFull` when every slot is taken, and with
    /// `MathOverflow` when the sequence number cannot grow; the queue is then
    /// unchanged.
    pub fn push(&mut self, ev: &MatchedOrder) -> (result: Result<(), PerpError>)
        requires
            old(self).wf(),
        ensures
            final(self).wf(),
            final(self).capacity == old(self).capacity,
            final(self).head == old(self).head,
            match result {
                Ok(()) => {
                    &&& old(self).count < old(self).capacity
                    &&& old(self).sequence < u64::MAX
                    &&& final(self)@ == old(self)@.push(Ok(*ev))
                    &&& final(self).count == old(self).count + 1
                    &&& final(self).sequence == old(self).sequence + 1
                    &&& final(self).tail == ring_next(
                        old(self).tail as int,
                        old(self).capacity as int,
                    )
                },
                Err(e) => {
                    &&& *final(self) == *old(self)
                    &&& e == if old(self).count >= old(self).capacity {
                        PerpError::QueueFull
                    } else {
                        PerpError::MathOverflow
                    }
                    &&& old(self).count >= old(self).capacity || old(self).sequence == u64::MAX
                },
            },
    {
        if self.count >= self.capacity {
            return Err(PerpError::QueueFull);
        }
        if self.sequence == u64::MAX {
            return Err(PerpError::MathOverflow);
        }
        let idx: usize = self.tail as usize;
        let mut slot: EventSlot = self.slots[idx];
        Self::encode_into_slot(&mut slot, ev);
        self.slots[idx] = slot;
        self.tail = if self.tail + 1 == self.capacity {
            0
        } else {
            self.tail + 1
        };
        self.count = self.count + 1;
        self.sequence = self.sequence + 1;
        proof {
            assert(self@ =~= old(self)@.push(Ok(*ev)));
        }
        Ok(())
    }

    /// The event at the front of the queue, which stays there.
    ///
    /// Fails as `pop` does.
    pub fn peek(&self) -> (result: Result<MatchedOrder, PerpError>)
        requires
            self.wf(),
        ensures
            result == if self.count == 0 {
                Err(PerpError::QueueEmpty)
            } else {
                self@[0]
            },
    {
        if self.count == 0 {
            return Err(PerpError::QueueEmpty);
        }
        Self::decode_from_slot(&self.slots[self.head as usize])
    }

    /// Takes the event at the front out of the queue.
    ///
    /// Fails with `QueueEmpty` when nothing waits or the front slot is not
    /// occupied, and with `DeserializationFailed` when the bytes of the front
    /// slot encode no event; the queue is then unchanged.
    pub fn pop(&mut self) -> (result: Result<MatchedOrder, PerpError>)
        requires
            old(self).wf(),
        ensures
            final(self).wf(),
            final(self).capacity == old(self).capacity,
            final(self).sequence == old(self).sequence,
            final(self).tail == old(self).tail,
            match result {
                Ok(event) => {
                    &&& old(self).count > 0
                    &&& old(self)@[0] == Ok::<MatchedOrder, PerpError>(event)
                    &&& final(self)@ == old(self)@.drop_first()
                    &&& final(self).count == old(self).count - 1
                    &&& final(self).head == ring_next(
                        old(self).head as int,
                        old(self).capacity as int,
                    )
                },
                Err(e) => {
                    &&& *final(self) == *old(self)
                    &&& if old(self).count == 0 {
                        e == PerpError::QueueEmpty
                    } else {
                        old(self)@[0] == Err::<MatchedOrder, PerpError>(e)
                    }
                },
            },
    {
        if self.count == 0 {
            return Err(PerpError::QueueEmpty);
        }
        let idx: usize = self.head as usize;
        let event: MatchedOrder = match Self::decode_from_slot(&self.slots[idx]) {
            Ok(event) => event,
            Err(e) => {
                return Err(e);
            },
        };
        let mut slot: EventSlot = self.slots[idx];
        slot.is_occupied = 0;
        slot.len = 0;
        self.slots[idx] = slot;
        self.head = if self.head + 1 == self.capacity {
            0
        } else {
            self.head + 1
        };
        self.count = self.count - 1;
        proof {
            assert(self@ =~= old(self)@.drop_first());
        }
        Ok(event)
    }
}

} // verus!
