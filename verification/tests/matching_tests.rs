use perp_dex::engine::matching_against::{match_against_book, MatchingType};
use perp_dex::engine::matching_engine::{MatchingEngine, RESTING_FEE_TIER};
use perp_dex::error::PerpError;
use perp_dex::instructions::process_order::ProcessOrder;
use perp_dex::state::event_queue::EventQueue;
use perp_dex::state::order::{CancelOrder, MatchedOrder, Order};
use perp_dex::state::position::{OrderType, Side};
use perp_dex::state::request_queue::{RequestQueue, RequestType};
use perp_dex::state::slab::{LeafNode, Slab};

const OWNER_A: [u8; 32] = [0xA; 32];
const OWNER_B: [u8; 32] = [0xB; 32];
const TAKER: [u8; 32] = [0x7; 32];

fn book(capacity: usize) -> Slab {
    Slab::initialize(32 + 88 * capacity, capacity).unwrap()
}

fn resting(price: u64, sequence: u64, quantity: u64, owner: [u8; 32]) -> LeafNode {
    LeafNode::new(LeafNode::price_key(price, sequence), owner, quantity, 0, 0)
}

fn taker(side: Side, order_type: OrderType, qty: u64, limit_price: u64) -> Order {
    Order {
        user: TAKER,
        order_id: 777,
        side,
        qty,
        order_type,
        limit_price,
        initial_margin: 0,
        leverage: 1,
        market: [5u8; 32],
    }
}

fn event(is_maker: bool, id: u128, user: [u8; 32], price: u64, qty: u64, side: Side) -> MatchedOrder {
    MatchedOrder {
        is_maker,
        order_id: id,
        user,
        fill_price: price,
        fill_qty: qty,
        side,
        timestamp: 50,
    }
}

fn drain(queue: &mut EventQueue) -> Vec<MatchedOrder> {
    let mut events = Vec::new();
    while let Ok(next) = queue.pop() {
        events.push(next);
    }
    events
}

fn two_asks() -> Slab {
    let mut asks = book(16);
    asks.insert_leaf(&resting(100, 1, 5, OWNER_A)).unwrap();
    asks.insert_leaf(&resting(101, 2, 10, OWNER_B)).unwrap();
    asks
}

#[test]
fn market_buy_walks_the_asks() {
    let mut asks = two_asks();
    let mut queue = EventQueue::with_capacity(8);
    let order = taker(Side::Buy, OrderType::Market, 8, 0);
    let (residual, fills) =
        match_against_book(&mut asks, &order, &mut queue, MatchingType::Normal, 50).unwrap();
    assert_eq!(residual, 0);
    assert!(fills.is_empty());
    assert_eq!(
        drain(&mut queue),
        vec![
            event(false, 777, TAKER, 100, 5, Side::Buy),
            event(true, LeafNode::price_key(100, 1), OWNER_A, 100, 5, Side::Sell),
            event(false, 777, TAKER, 101, 3, Side::Buy),
            event(true, LeafNode::price_key(101, 2), OWNER_B, 101, 3, Side::Sell),
        ]
    );
    assert_eq!(asks.header.leaf_count, 1);
    assert_eq!(asks.find_by_key(LeafNode::price_key(100, 1)), None);
    let left = asks.find_min().unwrap();
    let leaf = asks.nodes[left as usize].as_leaf();
    assert_eq!(leaf.price(), 101);
    assert_eq!(leaf.quantity, 7);
    assert_eq!(leaf.owner, OWNER_B);
}

#[test]
fn sell_limit_above_the_best_bid_does_not_fill() {
    let mut bids = book(16);
    bids.insert_leaf(&resting(100, 1, 5, OWNER_A)).unwrap();
    let mut queue = EventQueue::with_capacity(8);
    let order = taker(Side::Sell, OrderType::Limit, 8, 110);
    let (residual, fills) =
        match_against_book(&mut bids, &order, &mut queue, MatchingType::Normal, 50).unwrap();
    assert_eq!(residual, 8);
    assert!(fills.is_empty());
    assert_eq!(queue.count, 0);
    assert_eq!(bids.header.leaf_count, 1);
    assert_eq!(bids.nodes[bids.find_max().unwrap() as usize].as_leaf().quantity, 5);
}

#[test]
fn liquidation_mode_hands_the_taker_fills_back() {
    let mut asks = two_asks();
    let mut queue = EventQueue::with_capacity(8);
    let order = taker(Side::Buy, OrderType::Market, 8, 0);
    let (residual, fills) =
        match_against_book(&mut asks, &order, &mut queue, MatchingType::Liquidation, 50).unwrap();
    assert_eq!(residual, 0);
    assert_eq!(
        fills,
        vec![event(false, 777, TAKER, 100, 5, Side::Buy), event(false, 777, TAKER, 101, 3, Side::Buy)]
    );
    assert_eq!(
        drain(&mut queue),
        vec![
            event(true, LeafNode::price_key(100, 1), OWNER_A, 100, 5, Side::Sell),
            event(true, LeafNode::price_key(101, 2), OWNER_B, 101, 3, Side::Sell),
        ]
    );
}

#[test]
fn buy_limit_stops_at_its_price() {
    let mut asks = two_asks();
    let mut queue = EventQueue::with_capacity(8);
    let order = taker(Side::Buy, OrderType::Limit, 8, 100);
    let (residual, _) =
        match_against_book(&mut asks, &order, &mut queue, MatchingType::Normal, 50).unwrap();
    assert_eq!(residual, 3);
    assert_eq!(queue.count, 2);
    assert_eq!(asks.header.leaf_count, 1);
    assert_eq!(asks.nodes[asks.find_min().unwrap() as usize].as_leaf().quantity, 10);
}

#[test]
fn sell_takes_the_largest_key_first() {
    let mut bids = book(16);
    bids.insert_leaf(&resting(98, 1, 5, OWNER_A)).unwrap();
    bids.insert_leaf(&resting(99, 2, 5, OWNER_B)).unwrap();
    let mut queue = EventQueue::with_capacity(8);
    let order = taker(Side::Sell, OrderType::Limit, 7, 99);
    let (residual, _) =
        match_against_book(&mut bids, &order, &mut queue, MatchingType::Normal, 50).unwrap();
    assert_eq!(residual, 2);
    assert_eq!(
        drain(&mut queue),
        vec![
            event(false, 777, TAKER, 99, 5, Side::Sell),
            event(true, LeafNode::price_key(99, 2), OWNER_B, 99, 5, Side::Buy),
        ]
    );
    assert_eq!(bids.header.leaf_count, 1);
}

#[test]
fn earlier_order_at_one_price_is_met_first_by_a_buyer() {
    let mut asks = book(16);
    asks.insert_leaf(&resting(100, 9, 5, OWNER_B)).unwrap();
    asks.insert_leaf(&resting(100, 3, 5, OWNER_A)).unwrap();
    let mut queue = EventQueue::with_capacity(8);
    let order = taker(Side::Buy, OrderType::Market, 1, 0);
    match_against_book(&mut asks, &order, &mut queue, MatchingType::Liquidation, 50).unwrap();
    assert_eq!(queue.pop().unwrap().user, OWNER_A);
}

#[test]
fn empty_book_and_empty_order() {
    let mut asks = book(4);
    let mut queue = EventQueue::with_capacity(8);
    let order = taker(Side::Buy, OrderType::Market, 8, 0);
    assert_eq!(
        match_against_book(&mut asks, &order, &mut queue, MatchingType::Normal, 50),
        Ok((8, vec![]))
    );
    let mut asks = two_asks();
    let nothing = taker(Side::Buy, OrderType::Market, 0, 0);
    assert_eq!(
        match_against_book(&mut asks, &nothing, &mut queue, MatchingType::Normal, 50),
        Ok((0, vec![]))
    );
    assert_eq!(queue.count, 0);
    assert_eq!(asks.header.leaf_count, 2);
}

#[test]
fn book_smaller_than_the_order_leaves_a_residual() {
    let mut asks = two_asks();
    let mut queue = EventQueue::with_capacity(8);
    let order = taker(Side::Buy, OrderType::Market, 40, 0);
    let (residual, _) =
        match_against_book(&mut asks, &order, &mut queue, MatchingType::Normal, 50).unwrap();
    assert_eq!(residual, 25);
    assert_eq!(asks.header.leaf_count, 0);
    assert_eq!(queue.count, 4);
    assert_eq!(queue.sequence, 4);
}

#[test]
fn full_event_queue_stops_the_match() {
    let mut asks = two_asks();
    let mut queue = EventQueue::with_capacity(3);
    let order = taker(Side::Buy, OrderType::Market, 8, 0);
    assert_eq!(
        match_against_book(&mut asks, &order, &mut queue, MatchingType::Normal, 50),
        Err(PerpError::QueueFull)
    );
    let mut asks = two_asks();
    let mut queue = EventQueue::with_capacity(4);
    assert!(match_against_book(&mut asks, &order, &mut queue, MatchingType::Normal, 50).is_ok());
    let mut asks = two_asks();
    let mut queue = EventQueue::with_capacity(8);
    queue.sequence = u64::MAX - 3;
    assert_eq!(
        match_against_book(&mut asks, &order, &mut queue, MatchingType::Normal, 50),
        Err(PerpError::MathOverflow)
    );
    let mut asks = two_asks();
    let mut queue = EventQueue::with_capacity(2);
    queue.sequence = u64::MAX - 3;
    assert_eq!(
        match_against_book(&mut asks, &order, &mut queue, MatchingType::Normal, 50),
        Err(PerpError::QueueFull)
    );
}

fn engine() -> ProcessOrder {
    ProcessOrder {
        bids: book(16),
        asks: two_asks(),
        request_queue: RequestQueue::with_capacity(8),
        event_queue: EventQueue::with_capacity(8),
    }
}

#[test]
fn rest_of_a_limit_order_rests_on_its_own_side() {
    let mut ctx = engine();
    let order = Order {
        order_id: LeafNode::price_key(u64::MAX - 100, 4),
        ..taker(Side::Buy, OrderType::Limit, 8, 100)
    };
    assert_eq!(MatchingEngine::process_place_order(&mut ctx, order, 50), Ok(()));
    assert_eq!(ctx.event_queue.count, 2);
    assert_eq!(ctx.asks.header.leaf_count, 1);
    assert_eq!(ctx.bids.header.leaf_count, 1);
    let slot = ctx.bids.find_by_key(order.order_id).unwrap();
    assert_eq!(
        *ctx.bids.nodes[slot as usize].as_leaf(),
        LeafNode::new(order.order_id, TAKER, 3, RESTING_FEE_TIER, 50)
    );
    assert_eq!(RESTING_FEE_TIER, 2);
}

#[test]
fn rest_of_a_market_order_is_dropped() {
    let mut ctx = engine();
    let order = taker(Side::Buy, OrderType::Market, 40, 0);
    assert_eq!(MatchingEngine::process_place_order(&mut ctx, order, 50), Ok(()));
    assert_eq!(ctx.asks.header.leaf_count, 0);
    assert_eq!(ctx.bids.header.leaf_count, 0);
    assert_eq!(ctx.event_queue.count, 4);
}

#[test]
fn sell_order_rests_in_the_asks() {
    let mut ctx = engine();
    let order = Order { order_id: LeafNode::price_key(105, 4), ..taker(Side::Sell, OrderType::Limit, 6, 105) };
    assert_eq!(MatchingEngine::process_place_order(&mut ctx, order, 50), Ok(()));
    assert_eq!(ctx.event_queue.count, 0);
    assert_eq!(ctx.asks.header.leaf_count, 3);
    assert_eq!(ctx.bids.header.leaf_count, 0);
    assert_eq!(ctx.asks.nodes[ctx.asks.find_max().unwrap() as usize].as_leaf().quantity, 6);
}

#[test]
fn place_fails_where_the_rest_cannot_rest() {
    let mut ctx = engine();
    ctx.bids = book(0);
    let order = taker(Side::Buy, OrderType::Limit, 8, 100);
    assert_eq!(MatchingEngine::process_place_order(&mut ctx, order, 50), Err(PerpError::SlabFull));
    let mut ctx = engine();
    let taken = Order { order_id: LeafNode::price_key(100, 1), ..taker(Side::Sell, OrderType::Limit, 8, 100) };
    assert_eq!(MatchingEngine::process_place_order(&mut ctx, taken, 50), Err(PerpError::InvalidTree));
    let mut ctx = engine();
    ctx.event_queue = EventQueue::with_capacity(1);
    let order = taker(Side::Buy, OrderType::Limit, 8, 100);
    assert_eq!(MatchingEngine::process_place_order(&mut ctx, order, 50), Err(PerpError::QueueFull));
}

#[test]
fn cancel_takes_the_order_out() {
    let mut ctx = engine();
    let id = LeafNode::price_key(101, 2);
    let cancel = CancelOrder { order_id: id, user: OWNER_B, side: Side::Sell };
    assert_eq!(
        MatchingEngine::process_cancel_order(&mut ctx, cancel),
        Ok(resting(101, 2, 10, OWNER_B))
    );
    assert_eq!(ctx.asks.header.leaf_count, 1);
    assert_eq!(ctx.asks.find_by_key(id), None);
    assert_eq!(
        MatchingEngine::process_cancel_order(&mut ctx, cancel),
        Err(PerpError::OrderNotFound)
    );
    let wrong_side = CancelOrder { order_id: LeafNode::price_key(100, 1), user: OWNER_A, side: Side::Buy };
    assert_eq!(
        MatchingEngine::process_cancel_order(&mut ctx, wrong_side),
        Err(PerpError::OrderNotFound)
    );
    assert_eq!(ctx.asks.header.leaf_count, 1);
}

#[test]
fn worker_carries_out_requests_in_order() {
    let mut ctx = engine();
    let buy = Order { order_id: LeafNode::price_key(u64::MAX - 100, 0), ..taker(Side::Buy, OrderType::Limit, 8, 100) };
    ctx.request_queue.push(&RequestType::Place(buy)).unwrap();
    ctx.request_queue
        .push(&RequestType::Cancel(CancelOrder { order_id: buy.order_id, user: TAKER, side: Side::Buy }))
        .unwrap();
    assert_eq!(ctx.process(50), Ok(()));
    assert_eq!(ctx.request_queue.count, 0);
    assert_eq!(ctx.request_queue.sequence, 2);
    assert_eq!(ctx.bids.header.leaf_count, 0);
    assert_eq!(ctx.asks.header.leaf_count, 1);
    assert_eq!(ctx.event_queue.count, 2);
    assert_eq!(ctx.process(50), Ok(()));
}

#[test]
fn worker_takes_a_bounded_number_of_requests() {
    let mut ctx = engine();
    ctx.request_queue = RequestQueue::with_capacity(16);
    for sequence in 0..10u64 {
        let order = Order {
            order_id: LeafNode::price_key(200 + sequence, sequence),
            ..taker(Side::Sell, OrderType::Limit, 1, 200 + sequence)
        };
        ctx.asks = book(64);
        ctx.request_queue.push(&RequestType::Place(order)).unwrap();
    }
    assert_eq!(ctx.process(50), Ok(()));
    assert_eq!(ctx.request_queue.count, 2);
    assert_eq!(ctx.asks.header.leaf_count, 8);
    assert_eq!(ctx.process(50), Ok(()));
    assert_eq!(ctx.request_queue.count, 0);
    assert_eq!(ctx.asks.header.leaf_count, 10);
}

#[test]
fn worker_stops_at_the_first_failure() {
    let mut ctx = engine();
    ctx.request_queue
        .push(&RequestType::Cancel(CancelOrder { order_id: 1, user: TAKER, side: Side::Buy }))
        .unwrap();
    ctx.request_queue.push(&RequestType::Place(taker(Side::Buy, OrderType::Market, 1, 0))).unwrap();
    assert_eq!(ctx.process(50), Err(PerpError::OrderNotFound));
    let mut ctx = engine();
    ctx.request_queue.push(&RequestType::Place(taker(Side::Buy, OrderType::Market, 1, 0))).unwrap();
    ctx.request_queue.slots[0].data[0] = 5;
    assert_eq!(ctx.process(50), Err(PerpError::DeserializationFailed));
    assert_eq!(ctx.request_queue.count, 1);
}
