use perp_dex::codec::{CANCEL_LEN, MATCHED_LEN, ORDER_LEN};
use perp_dex::constants::MAX_REQUESTS;
use perp_dex::error::PerpError;
use perp_dex::state::event_queue::EventQueue;
use perp_dex::state::order::{CancelOrder, MatchedOrder, Order};
use perp_dex::state::position::{OrderType, Side};
use perp_dex::state::request_queue::{RequestQueue, RequestType};
use perp_dex::state::slot::{pad_to_slot, slot_prefix, EventSlot, RequestSlot};

fn order(qty: u64) -> Order {
    Order {
        user: [9u8; 32],
        order_id: 0x0102_0304_0506_0708_090A_0B0C_0D0E_0F10,
        side: Side::Sell,
        qty,
        order_type: OrderType::Limit,
        limit_price: 100,
        initial_margin: 77,
        leverage: 3,
        market: [5u8; 32],
    }
}

fn cancel(id: u128) -> CancelOrder {
    CancelOrder { order_id: id, user: [4u8; 32], side: Side::Buy }
}

fn fill(qty: u64) -> MatchedOrder {
    MatchedOrder {
        is_maker: true,
        order_id: 0xAABB,
        user: [6u8; 32],
        fill_price: 100,
        fill_qty: qty,
        side: Side::Buy,
        timestamp: -5,
    }
}

#[test]
fn order_bytes_are_laid_out_field_by_field() {
    let bytes = order(8).encode();
    assert_eq!(bytes.len(), ORDER_LEN);
    assert_eq!(bytes.len(), 107);
    assert_eq!(bytes[0..32], [9u8; 32]);
    assert_eq!(bytes[32..48], 0x0102_0304_0506_0708_090A_0B0C_0D0E_0F10u128.to_le_bytes());
    assert_eq!(bytes[32], 0x10);
    assert_eq!(bytes[47], 0x01);
    assert_eq!(bytes[48], 1);
    assert_eq!(bytes[49..57], 8u64.to_le_bytes());
    assert_eq!(bytes[57], 1);
    assert_eq!(bytes[58..66], 100u64.to_le_bytes());
    assert_eq!(bytes[66..74], 77u64.to_le_bytes());
    assert_eq!(bytes[74], 3);
    assert_eq!(bytes[75..107], [5u8; 32]);
}

#[test]
fn order_round_trip() {
    let sent = order(8);
    assert_eq!(Order::decode(&sent.encode()), Some(sent));
    let market = Order { side: Side::Buy, order_type: OrderType::Market, ..sent };
    assert_eq!(Order::decode(&market.encode()), Some(market));
    let large = Order {
        order_id: u128::MAX,
        qty: u64::MAX,
        limit_price: u64::MAX,
        initial_margin: u64::MAX,
        leverage: u8::MAX,
        ..sent
    };
    assert_eq!(Order::decode(&large.encode()), Some(large));
}

#[test]
fn order_decode_refuses_bad_bytes() {
    let bytes = order(8).encode();
    assert_eq!(Order::decode(&bytes[..106]), None);
    assert_eq!(Order::decode(&[]), None);
    let mut longer = bytes.clone();
    longer.push(0);
    assert_eq!(Order::decode(&longer), None);
    let mut bad_side = bytes.clone();
    bad_side[48] = 2;
    assert_eq!(Order::decode(&bad_side), None);
    let mut bad_type = bytes.clone();
    bad_type[57] = 9;
    assert_eq!(Order::decode(&bad_type), None);
}

#[test]
fn cancel_round_trip() {
    let sent = cancel(12345);
    let bytes = sent.encode();
    assert_eq!(bytes.len(), CANCEL_LEN);
    assert_eq!(bytes.len(), 49);
    assert_eq!(bytes[0..16], 12345u128.to_le_bytes());
    assert_eq!(bytes[16..48], [4u8; 32]);
    assert_eq!(bytes[48], 0);
    assert_eq!(CancelOrder::decode(&bytes), Some(sent));
    assert_eq!(CancelOrder::decode(&bytes[1..]), None);
    let mut bad = bytes.clone();
    bad[48] = 7;
    assert_eq!(CancelOrder::decode(&bad), None);
}

#[test]
fn fill_round_trip() {
    let sent = fill(3);
    let bytes = sent.encode();
    assert_eq!(bytes.len(), MATCHED_LEN);
    assert_eq!(bytes.len(), 74);
    assert_eq!(bytes[0], 1);
    assert_eq!(bytes[1..17], 0xAABBu128.to_le_bytes());
    assert_eq!(bytes[17..49], [6u8; 32]);
    assert_eq!(bytes[49..57], 100u64.to_le_bytes());
    assert_eq!(bytes[57..65], 3u64.to_le_bytes());
    assert_eq!(bytes[65], 0);
    assert_eq!(bytes[66..74], (-5i64).to_le_bytes());
    assert_eq!(MatchedOrder::decode(&bytes), Some(sent));
    let taker = MatchedOrder { is_maker: false, side: Side::Sell, timestamp: i64::MIN, ..sent };
    assert_eq!(MatchedOrder::decode(&taker.encode()), Some(taker));
    let mut bad_flag = bytes.clone();
    bad_flag[0] = 2;
    assert_eq!(MatchedOrder::decode(&bad_flag), None);
    let mut bad_side = bytes.clone();
    bad_side[65] = 2;
    assert_eq!(MatchedOrder::decode(&bad_side), None);
    assert_eq!(MatchedOrder::decode(&bytes[..73]), None);
}

#[test]
fn request_round_trip() {
    let place = RequestType::Place(order(8));
    let bytes = place.encode();
    assert_eq!(bytes.len(), 108);
    assert_eq!(bytes[0], 0);
    assert_eq!(bytes[1..], order(8).encode()[..]);
    assert_eq!(RequestType::decode(&bytes), Some(place));
    let drop = RequestType::Cancel(cancel(5));
    let bytes = drop.encode();
    assert_eq!(bytes.len(), 50);
    assert_eq!(bytes[0], 1);
    assert_eq!(RequestType::decode(&bytes), Some(drop));
    assert_eq!(RequestType::decode(&[]), None);
    assert_eq!(RequestType::decode(&[0]), None);
    let mut unknown = bytes.clone();
    unknown[0] = 2;
    assert_eq!(RequestType::decode(&unknown), None);
    let mut crossed = bytes.clone();
    crossed[0] = 0;
    assert_eq!(RequestType::decode(&crossed), None);
}

#[test]
fn slot_padding() {
    let data = pad_to_slot(&vec![1, 2, 3]);
    assert_eq!(data[..3], [1, 2, 3]);
    assert!(data[3..].iter().all(|byte| *byte == 0));
    assert_eq!(slot_prefix(&data, 3), vec![1, 2, 3]);
    assert_eq!(slot_prefix(&data, 0), Vec::<u8>::new());
    assert_eq!(slot_prefix(&data, 128).len(), 128);
}

#[test]
fn new_queue_is_empty() {
    let mut queue = RequestQueue::with_capacity(4);
    assert_eq!(queue.capacity, 4);
    assert_eq!(queue.count, 0);
    assert_eq!(queue.head, 0);
    assert_eq!(queue.tail, 0);
    assert_eq!(queue.sequence, 0);
    assert_eq!(queue.slots.len(), 4);
    assert_eq!(queue.peek(), Err(PerpError::QueueEmpty));
    assert_eq!(queue.pop(), Err(PerpError::QueueEmpty));
    assert_eq!(queue.count, 0);
    assert_eq!(queue.head, 0);
}

#[test]
fn requests_leave_in_the_order_they_came() {
    let mut queue = RequestQueue::with_capacity(4);
    let requests = [
        RequestType::Place(order(1)),
        RequestType::Cancel(cancel(2)),
        RequestType::Place(order(3)),
    ];
    for request in requests.iter() {
        assert_eq!(queue.push(request), Ok(()));
    }
    assert_eq!(queue.count, 3);
    assert_eq!(queue.sequence, 3);
    assert_eq!(queue.tail, 3);
    assert_eq!(queue.peek(), Ok(requests[0]));
    assert_eq!(queue.count, 3);
    assert_eq!(queue.pop(), Ok(requests[0]));
    assert_eq!(queue.pop(), Ok(requests[1]));
    assert_eq!(queue.count, 1);
    assert_eq!(queue.sequence, 3);
    assert_eq!(queue.head, 2);
    assert_eq!(queue.pop(), Ok(requests[2]));
    assert_eq!(queue.pop(), Err(PerpError::QueueEmpty));
    assert_eq!(queue.count, 0);
    assert_eq!(queue.sequence, 3);
}

#[test]
fn full_queue_refuses_and_stays() {
    let mut queue = RequestQueue::with_capacity(2);
    queue.push(&RequestType::Place(order(1))).unwrap();
    queue.push(&RequestType::Place(order(2))).unwrap();
    let slots = queue.slots.clone();
    assert_eq!(queue.push(&RequestType::Place(order(3))), Err(PerpError::QueueFull));
    assert_eq!(queue.count, 2);
    assert_eq!(queue.sequence, 2);
    assert_eq!(queue.tail, 0);
    assert_eq!(queue.head, 0);
    assert_eq!(queue.slots, slots);
    assert_eq!(queue.pop(), Ok(RequestType::Place(order(1))));
}

#[test]
fn ring_wraps_around() {
    let mut queue = RequestQueue::with_capacity(3);
    let mut expected = 0u64;
    for round in 0..20u64 {
        queue.push(&RequestType::Place(order(round))).unwrap();
        if round % 2 == 1 {
            assert_eq!(queue.pop(), Ok(RequestType::Place(order(expected))));
            expected += 1;
            assert_eq!(queue.pop(), Ok(RequestType::Place(order(expected))));
            expected += 1;
        }
        assert!(queue.head < 3 && queue.tail < 3);
        assert_eq!((queue.head + queue.count) % 3, queue.tail);
    }
    assert_eq!(queue.sequence, 20);
    assert_eq!(queue.count, 0);
}

#[test]
fn sequence_at_its_end_refuses() {
    let mut queue = RequestQueue::with_capacity(2);
    queue.sequence = u64::MAX;
    assert_eq!(queue.push(&RequestType::Place(order(1))), Err(PerpError::MathOverflow));
    assert_eq!(queue.count, 0);
    assert_eq!(queue.sequence, u64::MAX);
}

#[test]
fn unreadable_front_slot_stays() {
    let mut queue = RequestQueue::with_capacity(2);
    queue.push(&RequestType::Place(order(1))).unwrap();
    queue.slots[0].data[0] = 9;
    assert_eq!(queue.peek(), Err(PerpError::DeserializationFailed));
    assert_eq!(queue.pop(), Err(PerpError::DeserializationFailed));
    assert_eq!(queue.count, 1);
    assert_eq!(queue.head, 0);
    queue.slots[0].data[0] = 0;
    queue.slots[0].len = 0;
    assert_eq!(queue.pop(), Err(PerpError::DeserializationFailed));
    queue.slots[0].len = 129;
    assert_eq!(queue.pop(), Err(PerpError::DeserializationFailed));
    queue.slots[0].len = 108;
    queue.slots[0].is_occupied = 0;
    assert_eq!(queue.pop(), Err(PerpError::QueueEmpty));
    queue.slots[0].is_occupied = 1;
    assert_eq!(queue.pop(), Ok(RequestType::Place(order(1))));
}

#[test]
fn popped_slot_is_released() {
    let mut queue = RequestQueue::with_capacity(2);
    queue.push(&RequestType::Cancel(cancel(1))).unwrap();
    assert_eq!(queue.slots[0].is_occupied, 1);
    assert_eq!(queue.slots[0].len, 50);
    assert!(queue.slots[0].data[50..].iter().all(|byte| *byte == 0));
    queue.pop().unwrap();
    assert_eq!(queue.slots[0].is_occupied, 0);
    assert_eq!(queue.slots[0].len, 0);
}

#[test]
fn init_resets_the_queue() {
    let mut queue = RequestQueue::with_capacity(3);
    queue.push(&RequestType::Place(order(1))).unwrap();
    queue.push(&RequestType::Place(order(2))).unwrap();
    queue.pop().unwrap();
    queue.init();
    assert_eq!(queue.capacity as usize, MAX_REQUESTS);
    assert_eq!(queue.slots.len(), MAX_REQUESTS);
    assert_eq!((queue.head, queue.tail, queue.count, queue.sequence), (0, 0, 0, 0));
    assert!(queue.slots.iter().all(|slot| *slot == RequestSlot::empty()));
    queue.push(&RequestType::Place(order(1))).unwrap();
    queue.reset();
    assert_eq!((queue.head, queue.tail, queue.count, queue.sequence), (0, 0, 0, 0));
    assert_eq!(queue.pop(), Err(PerpError::QueueEmpty));
}

#[test]
fn events_leave_in_the_order_they_came() {
    let mut queue = EventQueue::with_capacity(4);
    for qty in 1..=4u64 {
        assert_eq!(queue.push(&fill(qty)), Ok(()));
    }
    assert_eq!(queue.push(&fill(5)), Err(PerpError::QueueFull));
    assert_eq!(queue.count, 4);
    assert_eq!(queue.sequence, 4);
    assert_eq!(queue.slots[0].is_occupied, 1);
    assert_eq!(queue.slots[0].len, 74);
    assert_eq!(queue.peek(), Ok(fill(1)));
    for qty in 1..=4u64 {
        assert_eq!(queue.pop(), Ok(fill(qty)));
    }
    assert_eq!(queue.pop(), Err(PerpError::QueueEmpty));
    assert_eq!(queue.peek(), Err(PerpError::QueueEmpty));
    assert_eq!(queue.sequence, 4);
    queue.push(&fill(9)).unwrap();
    assert_eq!(queue.sequence, 5);
    assert_eq!(queue.pop(), Ok(fill(9)));
}

#[test]
fn event_queue_errors_and_reset() {
    let mut queue = EventQueue::with_capacity(2);
    queue.push(&fill(1)).unwrap();
    queue.slots[0].data[65] = 3;
    assert_eq!(queue.pop(), Err(PerpError::DeserializationFailed));
    assert_eq!(queue.count, 1);
    queue.slots[0].is_occupied = 2;
    assert_eq!(queue.pop(), Err(PerpError::QueueEmpty));
    queue.sequence = u64::MAX;
    assert_eq!(queue.push(&fill(2)), Err(PerpError::MathOverflow));
    queue.init();
    assert_eq!(queue.capacity as usize, MAX_REQUESTS);
    assert_eq!((queue.head, queue.tail, queue.count, queue.sequence), (0, 0, 0, 0));
    assert!(queue.slots.iter().all(|slot| *slot == EventSlot::empty()));
    queue.push(&fill(2)).unwrap();
    queue.reset();
    assert_eq!(queue.count, 0);
}
