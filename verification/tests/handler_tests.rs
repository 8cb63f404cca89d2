use perp_dex::constants::{ASK_SLAB_CAPACITY, BID_SLAB_CAPACITY, MAX_REQUESTS};
use perp_dex::error::PerpError;
use perp_dex::event::FillEvent;
use perp_dex::instructions::deposit_colletral::{DepositColletral, DepositEvent};
use perp_dex::instructions::initalise_request_queue::InitaliseRequestQueues;
use perp_dex::instructions::initialize_market::{InitializeMarket, InitializeMarketBumps};
use perp_dex::instructions::initlaize_global_config::{
    InitializeGlobalConfig, InitializeGlobalConfigBumps,
};
use perp_dex::instructions::place_order::PlaceOrder;
use perp_dex::instructions::position_ins::PositionIns;
use perp_dex::instructions::reset_queues::ResetQueue;
use perp_dex::instructions::reset_slab::ResetOrderBook;
use perp_dex::instructions::setmark_price::SetMarkPrice;
use perp_dex::instructions::withdraw::Withdraw;
use perp_dex::state::event_queue::EventQueue;
use perp_dex::state::global::GlobalConfig;
use perp_dex::state::market::{MarketParams, MarketState};
use perp_dex::state::order::{MatchedOrder, Order};
use perp_dex::state::position::{OrderStatus, OrderType, Position, Side};
use perp_dex::state::request_queue::{RequestQueue, RequestType};
use perp_dex::state::slab::{LeafNode, Slab};
use perp_dex::state::user_collateral::UserCollateral;
use perp_dex::utils::keys::{is_default, same_key};

const USER: [u8; 32] = [0x9; 32];
const OTHER: [u8; 32] = [0x8; 32];

fn market() -> MarketState {
    MarketState {
        symbol: String::from("SOL-PERP"),
        authority: [1u8; 32],
        oracle_pubkey: [2u8; 32],
        last_oracle_price: 100,
        last_oracle_ts: 0,
        bid: [3u8; 32],
        asks: [4u8; 32],
        im_bps: 1000,
        mm_bps: 500,
        taker_fee_bps: 0,
        maker_fee_bps: 0,
        liquidator_share_bps: 5000,
        liq_penalty_bps: 100,
        oracle_band_bps: 0,
        cum_funding: 0,
        last_funding_ts: 0,
        max_funding_rate: 100,
        funding_interval_secs: 28_800,
        tick_size: 1,
        step_size: 1,
        min_order_notional: 50,
        bump: 255,
    }
}

fn blank_market() -> MarketState {
    MarketState {
        symbol: String::new(),
        authority: [0u8; 32],
        oracle_pubkey: [0u8; 32],
        last_oracle_price: 0,
        last_oracle_ts: 0,
        bid: [0u8; 32],
        asks: [0u8; 32],
        im_bps: 0,
        mm_bps: 0,
        taker_fee_bps: 0,
        maker_fee_bps: 0,
        liquidator_share_bps: 0,
        liq_penalty_bps: 0,
        oracle_band_bps: 0,
        cum_funding: 0,
        last_funding_ts: 0,
        max_funding_rate: 0,
        funding_interval_secs: 0,
        tick_size: 0,
        step_size: 0,
        min_order_notional: 0,
        bump: 0,
    }
}

fn params() -> MarketParams {
    MarketParams {
        oracle_pubkey: [2u8; 32],
        last_oracle_price: 100,
        last_oracle_ts: 11,
        im_bps: 1000,
        mm_bps: 500,
        oracle_band_bps: 12,
        taker_fee_bps: 13,
        maker_rebate_bps: 14,
        liq_penalty_bps: 100,
        liquidator_share_bps: 5000,
        max_funding_rate: 100,
        cum_funding: 15,
        last_funding_ts: 16,
        funding_interval_secs: 28_800,
        tick_size: 17,
        step_size: 18,
        min_order_notional: 50,
    }
}

fn position(base: i64, entry: u64) -> Position {
    Position {
        owner: USER,
        market: [5u8; 32],
        order_id: 31,
        side: Side::Buy,
        price: 6,
        qty: 0,
        order_type: OrderType::Limit,
        status: OrderStatus::Filled,
        base_position: base,
        entry_price: entry,
        realized_pnl: 0,
        last_cum_funding: 0,
        initial_margin: 0,
        leverage: 1,
        flags: 7,
        created_at: 0,
        updated_at: 0,
    }
}

fn collateral(amount: i128) -> UserCollateral {
    UserCollateral { owner: USER, collateral_amount: amount, last_updated: 0 }
}

fn order(side: Side, order_type: OrderType, qty: u64, limit_price: u64) -> Order {
    Order {
        user: [0u8; 32],
        order_id: 0,
        side,
        qty,
        order_type,
        limit_price,
        initial_margin: 40,
        leverage: 3,
        market: [5u8; 32],
    }
}

fn fill(user: [u8; 32], side: Side, qty: u64, price: u64) -> MatchedOrder {
    MatchedOrder { is_maker: false, order_id: 1, user, fill_price: price, fill_qty: qty, side, timestamp: 0 }
}

#[test]
fn key_helpers() {
    assert!(same_key(&USER, &USER));
    assert!(!same_key(&USER, &OTHER));
    let mut near = USER;
    near[31] = 0;
    assert!(!same_key(&USER, &near));
    assert!(is_default(&[0u8; 32]));
    assert!(!is_default(&near));
    let mut last = [0u8; 32];
    last[31] = 1;
    assert!(!is_default(&last));
}

#[test]
fn fill_event_holds_its_fields() {
    let event = FillEvent {
        maker_order_id: 1,
        maker_owner: USER,
        maker_client_order_id: 2,
        price: 3,
        quantity: 4,
    };
    assert_eq!(event.clone(), event);
    assert_eq!(event.price, 3);
}

#[test]
fn deposit_credits_the_collateral() {
    let mut ctx = DepositColletral { user: USER, user_colletral: collateral(10) };
    ctx.user_colletral.owner = [0u8; 32];
    assert_eq!(
        ctx.process(25, 99),
        Ok(DepositEvent { user: USER, amount: 25, new_collateral_amount: 35, timestamp: 99 })
    );
    assert_eq!(
        ctx.user_colletral,
        UserCollateral { owner: USER, collateral_amount: 35, last_updated: 99 }
    );
    assert_eq!(ctx.process(0, 100), Err(PerpError::InvalidAmount));
    assert_eq!(ctx.user_colletral.collateral_amount, 35);
    assert_eq!(ctx.user_colletral.last_updated, 99);
    ctx.user_colletral.collateral_amount = i128::MAX;
    assert_eq!(ctx.process(1, 100), Err(PerpError::MathOverflow));
    assert_eq!(ctx.user_colletral.collateral_amount, i128::MAX);
}

#[test]
fn withdraw_keeps_the_account_healthy() {
    let ctx = |amount: i128| Withdraw {
        user_colletral: collateral(amount),
        market: market(),
        user_position_: position(10, 100),
    };
    // Maintenance margin at the entry price: 10 * 100 * 5% = 50.
    let mut ok = ctx(1000);
    assert_eq!(ok.process(949), Ok(()));
    assert_eq!(ok.user_colletral.collateral_amount, 51);
    let mut edge = ctx(1000);
    assert_eq!(edge.process(950), Err(PerpError::WithdrawWouldLiquidate));
    assert_eq!(edge.user_colletral.collateral_amount, 1000);
    assert_eq!(ctx(1000).process(0), Err(PerpError::InvalidAmount));
    assert_eq!(ctx(1000).process(1001), Err(PerpError::InsufficientCollateral));
    assert_eq!(ctx(-5).process(1), Err(PerpError::InsufficientCollateral));
    let mut no_mark = ctx(1000);
    no_mark.market.last_oracle_price = 0;
    assert_eq!(no_mark.process(1), Err(PerpError::InvalidAmount));
    let mut losing = ctx(1000);
    losing.market.last_oracle_price = 50;
    // Unrealized loss 500, margin 50: 449 can leave, 450 cannot.
    assert_eq!(losing.process(450), Err(PerpError::WithdrawWouldLiquidate));
    assert_eq!(losing.process(449), Ok(()));
    assert_eq!(losing.user_colletral.collateral_amount, 551);
    let mut realized = ctx(1000);
    realized.user_position_.realized_pnl = -100;
    // Realized loss 100, margin 50: 849 can leave, 850 cannot.
    assert_eq!(realized.process(850), Err(PerpError::WithdrawWouldLiquidate));
    assert_eq!(realized.process(849), Ok(()));
    let mut huge = ctx(1000);
    huge.user_position_ = position(i64::MAX, u64::MAX);
    huge.market.last_oracle_price = i64::MAX;
    huge.market.mm_bps = u16::MAX;
    assert_eq!(huge.process(1), Err(PerpError::MathOverflow));
    let mut flat = ctx(10);
    flat.user_position_ = position(0, 0);
    assert_eq!(flat.process(9), Ok(()));
    assert_eq!(flat.process(1), Err(PerpError::WithdrawWouldLiquidate));
}

#[test]
fn set_mark_price_writes_the_price() {
    let mut ctx = SetMarkPrice { market: market() };
    assert_eq!(ctx.process(123), Ok(()));
    assert_eq!(ctx.market.last_oracle_price, 123);
    assert_eq!(ctx.process(u64::MAX), Err(PerpError::MathOverflow));
    assert_eq!(ctx.market.last_oracle_price, 123);
    assert_eq!(ctx.process(i64::MAX as u64), Ok(()));
    assert_eq!(ctx.market.last_oracle_price, i64::MAX);
}

#[test]
fn place_order_queues_the_request() {
    let mut ctx = PlaceOrder {
        user: USER,
        market: market(),
        user_colletral: collateral(100),
        position_per_market: position(10, 100),
        request_queue: RequestQueue::with_capacity(4),
    };
    ctx.request_queue.sequence = 5;
    let asked = order(Side::Buy, OrderType::Limit, 10, 100);
    assert_eq!(ctx.process(asked, 99), Ok(()));
    let id = (((u64::MAX - 100) as u128) << 64) | 5;
    assert_eq!(ctx.request_queue.sequence, 6);
    assert_eq!(ctx.request_queue.count, 1);
    assert_eq!(
        ctx.request_queue.pop(),
        Ok(RequestType::Place(Order { user: USER, order_id: id, ..asked }))
    );
    assert_eq!(
        ctx.position_per_market,
        Position {
            owner: USER,
            market: [5u8; 32],
            order_id: id,
            side: Side::Buy,
            price: 6,
            qty: 10,
            order_type: OrderType::Limit,
            status: OrderStatus::Pending,
            base_position: 10,
            entry_price: 100,
            realized_pnl: 0,
            last_cum_funding: 0,
            initial_margin: 40,
            leverage: 3,
            flags: 7,
            created_at: 0,
            updated_at: 99,
        }
    );
    assert_eq!(ctx.user_colletral, collateral(100));
    // A position without owner is stamped as created.
    ctx.position_per_market.owner = [0u8; 32];
    assert_eq!(ctx.process(asked, 120), Ok(()));
    assert_eq!(ctx.position_per_market.owner, USER);
    assert_eq!(ctx.position_per_market.created_at, 120);
    assert_eq!(ctx.position_per_market.updated_at, 120);
    assert_eq!(ctx.position_per_market.base_position, 10);
}

#[test]
fn place_order_refusals_change_nothing() {
    let ctx = || PlaceOrder {
        user: USER,
        market: market(),
        user_colletral: collateral(100),
        position_per_market: position(10, 100),
        request_queue: RequestQueue::with_capacity(1),
    };
    let asked = order(Side::Sell, OrderType::Market, 10, 0);
    let mut poor = ctx();
    poor.user_colletral = collateral(99);
    assert_eq!(poor.process(asked, 1), Err(PerpError::InsufficientCollateral));
    assert_eq!(poor.position_per_market, position(10, 100));
    assert_eq!(poor.request_queue.count, 0);
    let mut small = ctx();
    assert_eq!(
        small.process(order(Side::Sell, OrderType::Market, 0, 0), 1),
        Err(PerpError::OrderNotionalTooSmall)
    );
    let mut no_mark = ctx();
    no_mark.market.last_oracle_price = -1;
    assert_eq!(no_mark.process(asked, 1), Err(PerpError::InvalidAmount));
    let mut wide = ctx();
    wide.market.last_oracle_price = i64::MAX;
    wide.market.im_bps = u16::MAX;
    assert_eq!(
        wide.process(order(Side::Sell, OrderType::Market, u64::MAX, 0), 1),
        Err(PerpError::MathOverflow)
    );
    let mut full = ctx();
    assert_eq!(full.process(asked, 1), Ok(()));
    assert_eq!(full.request_queue.sequence, 1);
    let held = full.position_per_market;
    assert_eq!(full.process(asked, 2), Err(PerpError::QueueFull));
    assert_eq!(full.position_per_market, held);
    assert_eq!(full.request_queue.sequence, 1);
    let mut last = ctx();
    last.request_queue.sequence = u64::MAX;
    assert_eq!(last.process(asked, 1), Err(PerpError::MathOverflow));
    assert_eq!(last.position_per_market, position(10, 100));
}

#[test]
fn position_processor_takes_only_the_users_events() {
    let mut ctx = PositionIns {
        market: market(),
        user_position: position(0, 0),
        event_queue: EventQueue::with_capacity(8),
        user_collateral: collateral(1000),
    };
    assert_eq!(ctx.process(USER, 5), Err(PerpError::QueueEmpty));
    ctx.event_queue.push(&fill(USER, Side::Buy, 10, 100)).unwrap();
    ctx.event_queue.push(&fill(USER, Side::Sell, 4, 120)).unwrap();
    ctx.event_queue.push(&fill(OTHER, Side::Sell, 4, 120)).unwrap();
    ctx.event_queue.push(&fill(USER, Side::Sell, 6, 120)).unwrap();
    assert_eq!(ctx.process(USER, 5), Ok(()));
    assert_eq!(ctx.user_position.base_position, 6);
    assert_eq!(ctx.user_position.entry_price, 100);
    assert_eq!(ctx.user_position.realized_pnl, 80);
    assert_eq!(ctx.user_position.updated_at, 5);
    assert_eq!(ctx.user_collateral.collateral_amount, 1080);
    assert_eq!(ctx.event_queue.count, 2);
    let held = ctx.user_position;
    assert_eq!(ctx.process(USER, 6), Err(PerpError::EventNotForUser));
    assert_eq!(ctx.user_position, held);
    assert_eq!(ctx.event_queue.count, 2);
    assert_eq!(ctx.event_queue.peek(), Ok(fill(OTHER, Side::Sell, 4, 120)));
}

#[test]
fn position_processor_has_a_budget_and_stops_at_errors() {
    let mut ctx = PositionIns {
        market: market(),
        user_position: position(0, 0),
        event_queue: EventQueue::with_capacity(16),
        user_collateral: collateral(1000),
    };
    for _ in 0..10 {
        ctx.event_queue.push(&fill(USER, Side::Buy, 1, 100)).unwrap();
    }
    assert_eq!(ctx.process(USER, 5), Ok(()));
    assert_eq!(ctx.user_position.base_position, 8);
    assert_eq!(ctx.event_queue.count, 2);
    assert_eq!(ctx.process(USER, 5), Ok(()));
    assert_eq!(ctx.user_position.base_position, 10);
    ctx.event_queue.push(&fill(USER, Side::Buy, u64::MAX, 100)).unwrap();
    assert_eq!(ctx.process(USER, 5), Err(PerpError::MathOverflow));
    assert_eq!(ctx.user_position.base_position, 10);
    assert_eq!(ctx.event_queue.count, 1);
    let head = ctx.event_queue.head as usize;
    ctx.event_queue.slots[head].data[0] = 9;
    assert_eq!(ctx.process(USER, 5), Err(PerpError::DeserializationFailed));
}

#[test]
fn reset_queues_empties_both() {
    let mut ctx = ResetQueue {
        request_queue: RequestQueue::with_capacity(4),
        event_queue: EventQueue::with_capacity(4),
    };
    ctx.request_queue.push(&RequestType::Place(order(Side::Buy, OrderType::Market, 1, 0))).unwrap();
    ctx.event_queue.push(&fill(USER, Side::Buy, 1, 1)).unwrap();
    assert_eq!(ctx.process(), Ok(()));
    assert_eq!(ctx.request_queue.count, 0);
    assert_eq!(ctx.request_queue.sequence, 0);
    assert_eq!(ctx.request_queue.capacity as usize, MAX_REQUESTS);
    assert_eq!(ctx.event_queue.count, 0);
    assert_eq!(ctx.event_queue.sequence, 0);
    assert_eq!(ctx.event_queue.capacity as usize, MAX_REQUESTS);
    let mut fresh = InitaliseRequestQueues {
        request_queues: RequestQueue::with_capacity(1),
        event_queues: EventQueue::with_capacity(1),
    };
    assert_eq!(fresh.process(), Ok(()));
    assert_eq!(fresh.request_queues.slots.len(), MAX_REQUESTS);
    assert_eq!(fresh.event_queues.slots.len(), MAX_REQUESTS);
}

#[test]
fn reset_books_empties_both() {
    let mut ctx = ResetOrderBook {
        bids: Slab::initialize(32 + 88 * 8, 8).unwrap(),
        asks: Slab::initialize(32 + 88 * 4, 4).unwrap(),
    };
    ctx.bids.insert_leaf(&LeafNode::new(1, USER, 1, 0, 0)).unwrap();
    ctx.bids.insert_leaf(&LeafNode::new(2, USER, 1, 0, 0)).unwrap();
    ctx.asks.insert_leaf(&LeafNode::new(3, USER, 1, 0, 0)).unwrap();
    assert_eq!(ctx.process(), Ok(()));
    assert_eq!(ctx.bids.capacity(), 8);
    assert_eq!(ctx.asks.capacity(), 4);
    assert_eq!(ctx.bids.header.leaf_count, 0);
    assert_eq!(ctx.bids.find_min(), None);
    assert_eq!(ctx.asks.find_by_key(3), None);
    assert_eq!(ctx.bids.header.free_list_head, 0);
    assert!(ctx.bids.insert_leaf(&LeafNode::new(1, USER, 1, 0, 0)).is_ok());
}

fn global() -> GlobalConfig {
    GlobalConfig {
        authority: [0u8; 32],
        vault_quote: [0u8; 32],
        insurance_fund: [0u8; 32],
        fee_pool: [0u8; 32],
        request_queue: [0u8; 32],
        event_queue: [0u8; 32],
        trading_paused: false,
        funding_interval_secs: 0,
        bump: 0,
    }
}

#[test]
fn global_config_is_set_up_once_per_authority() {
    let mut ctx = InitializeGlobalConfig {
        authority: USER,
        global_config: global(),
        vault_quote: [2u8; 32],
        insurance_fund: [3u8; 32],
        fee_pool: [4u8; 32],
        request_queues: RequestQueue::with_capacity(1),
        request_queue_key: [5u8; 32],
        event_queues: EventQueue::with_capacity(1),
        event_queue_key: [6u8; 32],
    };
    let bumps = InitializeGlobalConfigBumps { global_config: 254 };
    assert_eq!(ctx.process(true, 3600, &bumps), Ok(()));
    assert_eq!(
        ctx.global_config,
        GlobalConfig {
            authority: USER,
            vault_quote: [2u8; 32],
            insurance_fund: [3u8; 32],
            fee_pool: [4u8; 32],
            request_queue: [5u8; 32],
            event_queue: [6u8; 32],
            trading_paused: true,
            funding_interval_secs: 3600,
            bump: 254,
        }
    );
    assert_eq!(ctx.request_queues.capacity as usize, MAX_REQUESTS);
    assert_eq!(ctx.event_queues.capacity as usize, MAX_REQUESTS);
    assert_eq!(ctx.process(false, 60, &bumps), Ok(()));
    assert!(!ctx.global_config.trading_paused);
    ctx.authority = OTHER;
    let before = ctx.global_config;
    assert_eq!(ctx.process(true, 1, &bumps), Err(PerpError::NotAuthorized));
    assert_eq!(ctx.global_config, before);
}

fn new_market() -> InitializeMarket {
    InitializeMarket {
        authority: USER,
        market: blank_market(),
        market_key: [7u8; 32],
        bids: Slab::initialize(32, 0).unwrap(),
        bids_key: [3u8; 32],
        bids_space: 32 + 88 * (2 * BID_SLAB_CAPACITY - 1) + 1024,
        asks: Slab::initialize(32, 0).unwrap(),
        asks_key: [4u8; 32],
        asks_space: 32 + 88 * (2 * ASK_SLAB_CAPACITY - 1),
    }
}

#[test]
fn market_is_created_with_its_books() {
    let mut ctx = new_market();
    let bumps = InitializeMarketBumps { market: 253 };
    let event = ctx.process("SOL-PERP".as_bytes().to_vec(), params(), &bumps).unwrap();
    assert_eq!(event.symbol, "SOL-PERP");
    assert_eq!(event.market, [7u8; 32]);
    assert_eq!(event.authority, USER);
    assert_eq!(
        ctx.market,
        MarketState {
            symbol: String::from("SOL-PERP"),
            authority: USER,
            oracle_pubkey: [2u8; 32],
            last_oracle_price: 100,
            last_oracle_ts: 11,
            bid: [3u8; 32],
            asks: [4u8; 32],
            im_bps: 1000,
            mm_bps: 500,
            taker_fee_bps: 13,
            maker_fee_bps: 14,
            liquidator_share_bps: 5000,
            liq_penalty_bps: 100,
            oracle_band_bps: 12,
            cum_funding: 15,
            last_funding_ts: 16,
            max_funding_rate: 100,
            funding_interval_secs: 28_800,
            tick_size: 17,
            step_size: 18,
            min_order_notional: 50,
            bump: 253,
        }
    );
    assert_eq!(ctx.bids.capacity(), 1999);
    assert_eq!(ctx.asks.capacity(), 1999);
    for sequence in 0..1000u64 {
        ctx.asks.insert_leaf(&LeafNode::new(sequence as u128, USER, 1, 0, 0)).unwrap();
    }
    assert_eq!(
        ctx.asks.insert_leaf(&LeafNode::new(1000, USER, 1, 0, 0)),
        Err(PerpError::SlabFull)
    );
    assert_eq!(ctx.bids.header.leaf_count, 0);
    assert_eq!(ctx.bids.header.free_list_head, 0);
    assert_eq!(ctx.bids.find_min(), None);
    // The same authority may set the market up again.
    let again = ctx.process("ünïcödé".as_bytes().to_vec(), params(), &bumps).unwrap();
    assert_eq!(again.symbol, "ünïcödé");
    assert_eq!(ctx.market.symbol, "ünïcödé");
}

#[test]
fn market_creation_refusals_change_nothing() {
    let bumps = InitializeMarketBumps { market: 253 };
    let mut ctx = new_market();
    assert_eq!(
        ctx.process(vec![0xFF, 0xFE], params(), &bumps).err(),
        Some(PerpError::InvalidSymbol)
    );
    assert_eq!(
        ctx.process(vec![b'a', 0xC3], params(), &bumps).err(),
        Some(PerpError::InvalidSymbol)
    );
    // An overlong encoding and a surrogate are no UTF-8 either.
    assert_eq!(
        ctx.process(vec![0xC0, 0x80], params(), &bumps).err(),
        Some(PerpError::InvalidSymbol)
    );
    assert_eq!(
        ctx.process(vec![0xED, 0xA0, 0x80], params(), &bumps).err(),
        Some(PerpError::InvalidSymbol)
    );
    ctx.market.authority = OTHER;
    assert_eq!(
        ctx.process(b"SOL".to_vec(), params(), &bumps).err(),
        Some(PerpError::NotAuthorized)
    );
    let mut ctx = new_market();
    let loose = MarketParams { mm_bps: 1001, ..params() };
    assert_eq!(ctx.process(b"SOL".to_vec(), loose, &bumps).err(), Some(PerpError::InvalidMarketConfig));
    let still = MarketParams { funding_interval_secs: 0, ..params() };
    assert_eq!(ctx.process(b"SOL".to_vec(), still, &bumps).err(), Some(PerpError::InvalidMarketConfig));
    ctx.asks_space -= 1;
    assert_eq!(
        ctx.process(b"SOL".to_vec(), params(), &bumps).err(),
        Some(PerpError::InsufficientSpace)
    );
    assert_eq!(ctx.market, blank_market());
    assert_eq!(ctx.bids.capacity(), 0);
    assert_eq!(ctx.asks.capacity(), 0);
}
