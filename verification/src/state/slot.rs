use vstd::prelude::*;

verus! {

/// Bytes of payload that a request slot can hold.
pub const REQUEST_SLOT_LEN: usize = 128;

/// Bytes of payload that an event slot can hold.
pub const EVENT_SLOT_LEN: usize = 128;

/// One slot of the request queue: a length-prefixed payload.
#[derive(Clone, Copy, Debug, PartialEq, Eq)]
pub struct RequestSlot {
    pub data: [u8; 128],
    pub len: u16,
    /// 1 while the slot holds a request that was not taken out yet.
    pub is_occupied: u8,
}

/// One slot of the event queue: a length-prefixed payload.
#[derive(Clone, Copy, Debug, PartialEq, Eq)]
pub struct EventSlot {
    pub data: [u8; 128],
    pub len: u16,
    /// 1 while the slot holds an event that was not taken out yet.
    pub is_occupied: u8,
}

/// The payload of a slot: the first `len` bytes of `data`, when the slot is
/// occupied and `len` is a possible length.
pub open spec fn framed(data: Seq<u8>, len: u16, is_occupied: u8) -> Option<Seq<u8>> {
    if is_occupied == 1 && 0 < len <= data.len() {
        Some(data.subrange(0, len as int))
    } else {
        None
    }
}

/// Whether a slot holds nothing but zeros.
pub open spec fn zeroed(data: Seq<u8>, len: u16, is_occupied: u8) -> bool {
    &&& len == 0
    &&& is_occupied == 0
    &&& forall|i: int| 0 <= i < data.len() ==> data[i] == 0
}

/// The slot after `index` in a ring of `capacity` slots.
pub open spec fn ring_next(index: int, capacity: int) -> int {
    if index + 1 == capacity {
        0
    } else {
        index + 1
    }
}

/// The slot `offset` places after `head` in a ring of `capacity` slots.
pub open spec fn ring_at(head: int, offset: int, capacity: int) -> int {
    if head + offset < capacity {
        head + offset
    } else {
        head + offset - capacity
    }
}

/// The 128 bytes of a slot that holds `payload`: the payload, then zeros.
pub fn pad_to_slot(payload: &Vec<u8>) -> (data: [u8; 128])
    requires
        payload.len() <= 128,
    ensures
        data@.subrange(0, payload.len() as int) == payload@,
        forall|i: int| payload.len() <= i < 128 ==> data@[i] == 0,
{
    let mut data: [u8; 128] = [0u8; 128];
    let mut i: usize = 0;
    while i < payload.len()
        invariant
            i <= payload.len() <= 128,
            forall|j: int| 0 <= j < i ==> data@[j] == payload@[j],
            forall|j: int| i <= j < 128 ==> data@[j] == 0,
        decreases payload.len() - i,
    {
        data[i] = payload[i];
        i += 1;
    }
    assert(data@.subrange(0, payload.len() as int) =~= payload@);
    data
}

/// The first `len` bytes of `data`.
pub fn slot_prefix(data: &[u8; 128], len: usize) -> (payload: Vec<u8>)
    requires
        len <= 128,
    ensures
        payload@ == data@.subrange(0, len as int),
{
    let mut payload: Vec<u8> = Vec::new();
    let mut i: usize = 0;
    while i < len
        invariant
            i <= len <= 128,
            payload@ == data@.subrange(0, i as int),
        decreases len - i,
    {
        payload.push(data[i]);
        i += 1;
        assert(payload@ =~= data@.subrange(0, i as int));
    }
    payload
}

} // verus!
