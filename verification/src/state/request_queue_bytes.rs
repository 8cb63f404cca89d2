//! The byte image of the request queue in persistent storage: a header of 16
//! bytes and one slot of 136 bytes for each place of the ring. Integers are
//! little-endian; bytes that hold nothing are zero.

use vstd::bytes::{
    lemma_auto_spec_u16_to_from_le_bytes, lemma_auto_spec_u64_to_from_le_bytes,
    spec_u16_from_le_bytes, spec_u16_to_le_bytes, spec_u64_from_le_bytes, spec_u64_to_le_bytes,
    u16_from_le_bytes, u16_to_le_bytes, u64_from_le_bytes, u64_to_le_bytes,
};
use vstd::prelude::*;
use vstd::slice::slice_subrange;

use crate::error::PerpError;
use crate::state::request_queue::RequestQueue;
use crate::state::slab_bytes::{all_zero, put_zeros, zeros};
use crate::state::slot::RequestSlot;

verus! {

/// Bytes of the header of a queue's image.
pub const QUEUE_HEADER_LEN: usize = 16;

/// Bytes of one slot of a queue's image.
pub const QUEUE_SLOT_LEN: usize = 136;

/// The 136 bytes of a slot: the payload bytes, the length, the occupancy
/// flag, and five bytes of padding.
pub open spec fn encode_slot(slot: RequestSlot) -> Seq<u8> {
    slot.data@ + spec_u16_to_le_bytes(slot.len) + seq![slot.is_occupied] + zeros(5)
}

/// The 16 bytes of a queue's header: its counters in the order of their declaration.
pub open spec fn encode_counters(queue: RequestQueue) -> Seq<u8> {
    spec_u16_to_le_bytes(queue.head) + spec_u16_to_le_bytes(queue.tail) + spec_u16_to_le_bytes(
        queue.count,
    ) + spec_u16_to_le_bytes(queue.capacity) + spec_u64_to_le_bytes(queue.sequence)
}

/// The bytes of slot `index` in the image `bytes` of a queue.
pub open spec fn slot_image(bytes: Seq<u8>, index: int) -> Seq<u8> {
    bytes.subrange(16 + 136 * index, 16 + 136 * index + 136)
}

/// Whether `bytes` are the image of `queue`.
pub open spec fn is_image(bytes: Seq<u8>, queue: RequestQueue) -> bool {
    &&& bytes.len() == 16 + 136 * queue.slots.len()
    &&& bytes.subrange(0, 16) == encode_counters(queue)
    &&& forall|i: int|
        0 <= i < queue.slots.len() ==> slot_image(bytes, i) == encode_slot(#[trigger] queue.slots[i])
}

/// The layout of a slot's image.
pub proof fn lemma_slot_layout(slot: RequestSlot)
    ensures
        encode_slot(slot).len() == 136,
        encode_slot(slot).subrange(0, 128) == slot.data@,
        encode_slot(slot).subrange(128, 130) == spec_u16_to_le_bytes(slot.len),
        encode_slot(slot)[130] == slot.is_occupied,
        encode_slot(slot).subrange(131, 136) == zeros(5),
{
    lemma_auto_spec_u16_to_from_le_bytes();
    let e = encode_slot(slot);
    assert(slot.data@.len() == 128);
    assert(e.subrange(0, 128) =~= slot.data@);
    assert(e.subrange(128, 130) =~= spec_u16_to_le_bytes(slot.len));
    assert(e.subrange(131, 136) =~= zeros(5));
}

/// The layout of a header's image.
pub proof fn lemma_counters_layout(queue: RequestQueue)
    ensures
        encode_counters(queue).len() == 16,
        encode_counters(queue).subrange(0, 2) == spec_u16_to_le_bytes(queue.head),
        encode_counters(queue).subrange(2, 4) == spec_u16_to_le_bytes(queue.tail),
        encode_counters(queue).subrange(4, 6) == spec_u16_to_le_bytes(queue.count),
        encode_counters(queue).subrange(6, 8) == spec_u16_to_le_bytes(queue.capacity),
        encode_counters(queue).subrange(8, 16) == spec_u64_to_le_bytes(queue.sequence),
{
    lemma_auto_spec_u16_to_from_le_bytes();
    lemma_auto_spec_u64_to_from_le_bytes();
    let e = encode_counters(queue);
    assert(e.subrange(0, 2) =~= spec_u16_to_le_bytes(queue.head));
    assert(e.subrange(2, 4) =~= spec_u16_to_le_bytes(queue.tail));
    assert(e.subrange(4, 6) =~= spec_u16_to_le_bytes(queue.count));
    assert(e.subrange(6, 8) =~= spec_u16_to_le_bytes(queue.capacity));
    assert(e.subrange(8, 16) =~= spec_u64_to_le_bytes(queue.sequence));
}

/// Two queues with one image have the same counters and the same slots.
pub proof fn lemma_image_injective(bytes: Seq<u8>, a: RequestQueue, b: RequestQueue)
    requires
        is_image(bytes, a),
        is_image(bytes, b),
    ensures
        a.head == b.head,
        a.tail == b.tail,
        a.count == b.count,
        a.capacity == b.capacity,
        a.sequence == b.sequence,
        a.slots@ == b.slots@,
{
    lemma_auto_spec_u16_to_from_le_bytes();
    lemma_auto_spec_u64_to_from_le_bytes();
    lemma_counters_layout(a);
    lemma_counters_layout(b);
    assert(spec_u16_from_le_bytes(spec_u16_to_le_bytes(a.head)) == spec_u16_from_le_bytes(
        spec_u16_to_le_bytes(b.head),
    ));
    assert(spec_u16_from_le_bytes(spec_u16_to_le_bytes(a.tail)) == spec_u16_from_le_bytes(
        spec_u16_to_le_bytes(b.tail),
    ));
    assert(spec_u16_from_le_bytes(spec_u16_to_le_bytes(a.count)) == spec_u16_from_le_bytes(
        spec_u16_to_le_bytes(b.count),
    ));
    assert(spec_u16_from_le_bytes(spec_u16_to_le_bytes(a.capacity)) == spec_u16_from_le_bytes(
        spec_u16_to_le_bytes(b.capacity),
    ));
    assert(spec_u64_from_le_bytes(spec_u64_to_le_bytes(a.sequence)) == spec_u64_from_le_bytes(
        spec_u64_to_le_bytes(b.sequence),
    ));
    assert(a.slots@.len() == b.slots@.len());
    assert forall|i: int| 0 <= i < a.slots@.len() implies a.slots@[i] == b.slots@[i] by {
        let x = a.slots@[i];
        let y = b.slots@[i];
        assert(encode_slot(x) == slot_image(bytes, i));
        assert(encode_slot(y) == slot_image(bytes, i));
        lemma_slot_layout(x);
        lemma_slot_layout(y);
        assert(x.data =~= y.data);
        assert(spec_u16_from_le_bytes(spec_u16_to_le_bytes(x.len)) == spec_u16_from_le_bytes(
            spec_u16_to_le_bytes(y.len),
        ));
    }
    assert(a.slots@ =~= b.slots@);
}

/// Writes the image of `slot` at the end of `out`.
fn put_slot(out: &mut Vec<u8>, slot: &RequestSlot)
    ensures
        final(out)@ == old(out)@ + encode_slot(*slot),
{
    let ghost start = out@;
    let mut i: usize = 0;
    while i < 128
        invariant
            i <= 128,
            out@ == start + slot.data@.subrange(0, i as int),
        decreases 128 - i,
    {
        out.push(slot.data[i]);
        i += 1;
        assert(out@ =~= start + slot.data@.subrange(0, i as int));
    }
    assert(slot.data@.subrange(0, 128) =~= slot.data@);
    let mut len = u16_to_le_bytes(slot.len);
    out.append(&mut len);
    out.push(slot.is_occupied);
    put_zeros(out, 5);
    proof {
        assert(out@ =~= start + encode_slot(*slot));
    }
}

/// Reads the 128 payload bytes that start at `at`.
fn take_data(bytes: &[u8], at: usize) -> (data: [u8; 128])
    requires
        at + 128 <= bytes.len(),
    ensures
        data@ == bytes@.subrange(at as int, at + 128),
{
    let mut data: [u8; 128] = [0u8; 128];
    let mut i: usize = 0;
    while i < 128
        invariant
            i <= 128,
            at + 128 <= bytes.len(),
            forall|j: int| 0 <= j < i ==> data@[j] == bytes@[at + j],
        decreases 128 - i,
    {
        data[i] = bytes[at + i];
        i += 1;
    }
    assert(data@ =~= bytes@.subrange(at as int, at + 128));
    data
}

/// Reads the slot whose image starts at `at`; `None` when its padding is
/// not zero.
fn take_slot(bytes: &[u8], at: usize) -> (slot: Option<RequestSlot>)
    requires
        at + 136 <= bytes.len(),
    ensures
        match slot {
            Some(read) => encode_slot(read) == bytes@.subrange(at as int, at + 136),
            None => forall|other: RequestSlot|
                encode_slot(other) != bytes@.subrange(at as int, at + 136),
        },
{
    let ghost image = bytes@.subrange(at as int, at + 136);
    proof {
        assert(image.subrange(0, 128) =~= bytes@.subrange(at as int, at + 128));
        assert(image.subrange(128, 130) =~= bytes@.subrange(at + 128, at + 130));
        assert(image.subrange(131, 136) =~= bytes@.subrange(at + 131, at + 136));
    }
    if !all_zero(bytes, at + 131, at + 136) {
        proof {
            assert forall|other: RequestSlot| encode_slot(other) != image by {
                lemma_slot_layout(other);
            }
        }
        return None;
    }
    let slot = RequestSlot {
        data: take_data(bytes, at),
        len: u16_from_le_bytes(slice_subrange(bytes, at + 128, at + 130)),
        is_occupied: bytes[at + 130],
    };
    proof {
        lemma_slot_image(slot, image);
    }
    Some(slot)
}

/// Bytes that hold the parts of a slot where its image has them are its image.
proof fn lemma_slot_image(slot: RequestSlot, image: Seq<u8>)
    requires
        image.len() == 136,
        image.subrange(0, 128) == slot.data@,
        slot.len == spec_u16_from_le_bytes(image.subrange(128, 130)),
        image[130] == slot.is_occupied,
        image.subrange(131, 136) == zeros(5),
    ensures
        encode_slot(slot) == image,
{
    lemma_auto_spec_u16_to_from_le_bytes();
    lemma_slot_layout(slot);
    let e = encode_slot(slot);
    assert(e.subrange(128, 130) == image.subrange(128, 130));
    assert forall|i: int| 0 <= i < 136 implies e[i] == image[i] by {
        if i < 128 {
            assert(e.subrange(0, 128)[i] == image.subrange(0, 128)[i]);
        } else if i < 130 {
            assert(e.subrange(128, 130)[i - 128] == image.subrange(128, 130)[i - 128]);
        } else if i > 130 {
            assert(e.subrange(131, 136)[i - 131] == image.subrange(131, 136)[i - 131]);
        }
    }
    assert(e =~= image);
}

impl RequestQueue {
    /// The image of the queue.
    pub fn to_bytes(&self) -> (bytes: Vec<u8>)
        ensures
            is_image(bytes@, *self),
    {
        let mut out: Vec<u8> = u16_to_le_bytes(self.head);
        let mut tail = u16_to_le_bytes(self.tail);
        out.append(&mut tail);
        let mut count = u16_to_le_bytes(self.count);
        out.append(&mut count);
        let mut capacity = u16_to_le_bytes(self.capacity);
        out.append(&mut capacity);
        let mut sequence = u64_to_le_bytes(self.sequence);
        out.append(&mut sequence);
        proof {
            lemma_counters_layout(*self);
            assert(out@ =~= encode_counters(*self));
        }
        let mut i: usize = 0;
        while i < self.slots.len()
            invariant
                i <= self.slots.len(),
                out@.len() == 16 + 136 * i,
                out@.subrange(0, 16) == encode_counters(*self),
                forall|j: int|
                    0 <= j < i ==> slot_image(out@, j) == encode_slot(#[trigger] self.slots@[j]),
            decreases self.slots.len() - i,
        {
            let ghost before = out@;
            put_slot(&mut out, &self.slots[i]);
            proof {
                lemma_slot_layout(self.slots@[i as int]);
                assert(out@.subrange(0, 16) =~= before.subrange(0, 16));
                assert forall|j: int| 0 <= j < i + 1 implies slot_image(out@, j) == encode_slot(
                    #[trigger] self.slots@[j],
                ) by {
                    if j < i {
                        assert(slot_image(out@, j) =~= slot_image(before, j));
                    } else {
                        assert(slot_image(out@, j) =~= encode_slot(self.slots@[j]));
                    }
                }
            }
            i += 1;
        }
        out
    }

    /// The queue whose image `bytes` begin with. The queue has as many slots
    /// as its header says; bytes beyond them are not looked at.
    ///
    /// Fails with `InsufficientSpace` when `bytes` are too few for the header
    /// or for the slots it announces, and with `DeserializationFailed` when
    /// the padding of a slot is not zero or the counters are not those of a
    /// ring.
    pub fn from_bytes(bytes: &[u8]) -> (result: Result<RequestQueue, PerpError>)
        ensures
            match result {
                Ok(queue) => {
                    &&& queue.wf()
                    &&& bytes.len() >= 16 + 136 * queue.capacity
                    &&& is_image(bytes@.take(16 + 136 * queue.capacity), queue)
                },
                Err(e) => if bytes.len() < 16 || bytes.len() < 16 + 136 * spec_u16_from_le_bytes(
                    bytes@.subrange(6, 8),
                ) {
                    e == PerpError::InsufficientSpace
                } else {
                    &&& e == PerpError::DeserializationFailed
                    &&& forall|queue: RequestQueue|
                        is_image(
                            bytes@.take(16 + 136 * spec_u16_from_le_bytes(bytes@.subrange(6, 8))),
                            queue,
                        ) ==> !queue.wf()
                },
            },
    {
        if bytes.len() < QUEUE_HEADER_LEN {
            return Err(PerpError::InsufficientSpace);
        }
        let head: u16 = u16_from_le_bytes(slice_subrange(bytes, 0, 2));
        let tail: u16 = u16_from_le_bytes(slice_subrange(bytes, 2, 4));
        let count: u16 = u16_from_le_bytes(slice_subrange(bytes, 4, 6));
        let capacity: u16 = u16_from_le_bytes(slice_subrange(bytes, 6, 8));
        let sequence: u64 = u64_from_le_bytes(slice_subrange(bytes, 8, 16));
        if (bytes.len() - QUEUE_HEADER_LEN) / QUEUE_SLOT_LEN < capacity as usize {
            return Err(PerpError::InsufficientSpace);
        }
        let ghost image = bytes@.take(16 + 136 * capacity);
        let mut slots: Vec<RequestSlot> = Vec::new();
        let mut i: usize = 0;
        while i < capacity as usize
            invariant
                i <= capacity,
                16 + 136 * capacity <= bytes.len(),
                image == bytes@.take(16 + 136 * capacity),
                capacity == spec_u16_from_le_bytes(bytes@.subrange(6, 8)),
                slots.len() == i,
                forall|j: int|
                    0 <= j < i ==> slot_image(bytes@, j) == encode_slot(#[trigger] slots@[j]),
            decreases capacity - i,
        {
            match take_slot(bytes, QUEUE_HEADER_LEN + QUEUE_SLOT_LEN * i) {
                Some(slot) => {
                    slots.push(slot);
                },
                None => {
                    proof {
                        assert forall|queue: RequestQueue| is_image(image, queue) implies !queue.wf() by {
                            assert(queue.slots.len() == capacity);
                            assert(slot_image(image, i as int) =~= slot_image(bytes@, i as int));
                            assert(slot_image(image, i as int) == encode_slot(
                                queue.slots[i as int],
                            ));
                        }
                    }
                    return Err(PerpError::DeserializationFailed);
                },
            }
            i += 1;
        }
        let queue = RequestQueue { head, tail, count, capacity, sequence, slots };
        proof {
            lemma_auto_spec_u16_to_from_le_bytes();
            lemma_auto_spec_u64_to_from_le_bytes();
            lemma_counters_layout(queue);
            assert(image.subrange(0, 16) =~= encode_counters(queue)) by {
                assert(image.subrange(0, 2) =~= bytes@.subrange(0, 2));
                assert(image.subrange(2, 4) =~= bytes@.subrange(2, 4));
                assert(image.subrange(4, 6) =~= bytes@.subrange(4, 6));
                assert(image.subrange(6, 8) =~= bytes@.subrange(6, 8));
                assert(image.subrange(8, 16) =~= bytes@.subrange(8, 16));
                assert(image.subrange(0, 16) =~= image.subrange(0, 2) + image.subrange(2, 4)
                    + image.subrange(4, 6) + image.subrange(6, 8) + image.subrange(8, 16));
            }
            assert forall|j: int| 0 <= j < capacity implies slot_image(image, j) == encode_slot(
                #[trigger] queue.slots[j],
            ) by {
                assert(slot_image(image, j) =~= slot_image(bytes@, j));
            }
            assert(is_image(image, queue));
        }
        let ring: bool = capacity > 0 && head < capacity && tail < capacity && count <= capacity
            && tail as u32 == (if head as u32 + (count as u32) < capacity as u32 {
            head as u32 + count as u32
        } else {
            head as u32 + count as u32 - capacity as u32
        });
        if !ring {
            proof {
                assert forall|other: RequestQueue| is_image(image, other) implies !other.wf() by {
                    lemma_image_injective(image, queue, other);
                }
            }
            return Err(PerpError::DeserializationFailed);
        }
        Ok(queue)
    }
}

} // verus!
