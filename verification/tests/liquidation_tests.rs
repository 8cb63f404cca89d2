use perp_dex::engine::funding::FUNDING_SCALE;
use perp_dex::error::PerpError;
use perp_dex::instructions::liquidation::{settle_liquidation, Liquidation, LiquidationPayout};
use perp_dex::state::event_queue::EventQueue;
use perp_dex::state::global::GlobalConfig;
use perp_dex::state::market::MarketState;
use perp_dex::state::order::MatchedOrder;
use perp_dex::state::position::{OrderStatus, OrderType, Position, Side};
use perp_dex::state::slab::{LeafNode, Slab};
use perp_dex::state::user_collateral::UserCollateral;

const MAKER: [u8; 32] = [0xA; 32];
const OWNER: [u8; 32] = [0x9; 32];

fn market(mark: i64) -> MarketState {
    MarketState {
        symbol: String::from("SOL-PERP"),
        authority: [1u8; 32],
        oracle_pubkey: [2u8; 32],
        last_oracle_price: mark,
        last_oracle_ts: 0,
        bid: [3u8; 32],
        asks: [4u8; 32],
        im_bps: 1000,
        mm_bps: 500,
        taker_fee_bps: 0,
        maker_fee_bps: 0,
        liquidator_share_bps: 5000,
        liq_penalty_bps: 100,
        oracle_band_bps: 0,
        cum_funding: 0,
        last_funding_ts: 0,
        max_funding_rate: 100,
        funding_interval_secs: 28_800,
        tick_size: 1,
        step_size: 1,
        min_order_notional: 0,
        bump: 255,
    }
}

fn position(base: i64, entry: u64) -> Position {
    Position {
        owner: OWNER,
        market: [5u8; 32],
        order_id: 31,
        side: Side::Buy,
        price: 0,
        qty: 0,
        order_type: OrderType::Limit,
        status: OrderStatus::Filled,
        base_position: base,
        entry_price: entry,
        realized_pnl: 0,
        last_cum_funding: 0,
        initial_margin: 0,
        leverage: 1,
        flags: 0,
        created_at: 0,
        updated_at: 0,
    }
}

fn book(orders: &[(u64, u64)]) -> Slab {
    let mut slab = Slab::initialize(32 + 88 * 16, 16).unwrap();
    for (sequence, (price, quantity)) in orders.iter().enumerate() {
        slab.insert_leaf(&LeafNode::new(
            LeafNode::price_key(*price, sequence as u64),
            MAKER,
            *quantity,
            0,
            0,
        ))
        .unwrap();
    }
    slab
}

fn liquidation(base: i64, collateral: i128, mark: i64, bids: &[(u64, u64)], asks: &[(u64, u64)]) -> Liquidation {
    Liquidation {
        market: market(mark),
        bids: book(bids),
        ask: book(asks),
        event_queue: EventQueue::with_capacity(8),
        liquidatee_position: position(base, 100),
        liquidatee_user_collateral: UserCollateral {
            owner: OWNER,
            collateral_amount: collateral,
            last_updated: 0,
        },
        global_config: GlobalConfig {
            authority: [1u8; 32],
            vault_quote: [2u8; 32],
            insurance_fund: [3u8; 32],
            fee_pool: [4u8; 32],
            request_queue: [5u8; 32],
            event_queue: [6u8; 32],
            trading_paused: false,
            funding_interval_secs: 28_800,
            bump: 254,
        },
    }
}

#[test]
fn long_position_filled_from_the_book() {
    let mut ctx = liquidation(10, 130, 90, &[(90, 10)], &[]);
    let payout = ctx.process(77).unwrap();
    // Closed notional 900, loss 100, equity 30, penalty 9 split 4 and 5.
    assert_eq!(
        payout,
        LiquidationPayout { liquidator_reward: 4, insurance_fund_amount: 5, shortfall: 0, payout: 21 }
    );
    assert_eq!(ctx.liquidatee_position.base_position, 0);
    assert_eq!(ctx.liquidatee_position.entry_price, 0);
    assert_eq!(ctx.liquidatee_position.realized_pnl, -100);
    assert_eq!(ctx.liquidatee_position.updated_at, 77);
    assert_eq!(ctx.liquidatee_user_collateral.collateral_amount, 0);
    assert_eq!(ctx.bids.header.leaf_count, 0);
    assert_eq!(ctx.event_queue.count, 1);
    assert_eq!(
        ctx.event_queue.pop(),
        Ok(MatchedOrder {
            is_maker: true,
            order_id: LeafNode::price_key(90, 0),
            user: MAKER,
            fill_price: 90,
            fill_qty: 10,
            side: Side::Buy,
            timestamp: 77,
        })
    );
}

#[test]
fn thin_book_closes_the_rest_at_the_mark() {
    let mut ctx = liquidation(10, 230, 80, &[(90, 4)], &[]);
    let payout = ctx.process(77).unwrap();
    // Closed notional 4 * 90 + 6 * 80 = 840, mean exit 84, loss 160, equity 70, penalty 8.
    assert_eq!(
        payout,
        LiquidationPayout { liquidator_reward: 4, insurance_fund_amount: 4, shortfall: 0, payout: 62 }
    );
    assert_eq!(ctx.liquidatee_position.realized_pnl, -160);
    assert_eq!(ctx.liquidatee_position.base_position, 0);
    assert_eq!(ctx.liquidatee_user_collateral.collateral_amount, 0);
    assert_eq!(ctx.event_queue.count, 1);
    assert_eq!(ctx.bids.header.leaf_count, 0);
}

#[test]
fn bad_debt_is_covered_by_the_insurance_fund() {
    let mut ctx = liquidation(10, 100, 80, &[], &[]);
    let payout = ctx.process(77).unwrap();
    assert_eq!(
        payout,
        LiquidationPayout { liquidator_reward: 0, insurance_fund_amount: 0, shortfall: 100, payout: 0 }
    );
    assert_eq!(ctx.liquidatee_position.realized_pnl, -200);
    assert_eq!(ctx.liquidatee_user_collateral.collateral_amount, 0);
    assert_eq!(ctx.event_queue.count, 0);
}

#[test]
fn short_position_buys_from_the_asks() {
    let mut ctx = liquidation(-10, 130, 110, &[(95, 10)], &[(112, 3), (110, 10)]);
    let payout = ctx.process(77).unwrap();
    // Bought 10 at 110: loss 100, equity 30, penalty 1100 * 1% = 11, split 5 and 6.
    assert_eq!(
        payout,
        LiquidationPayout { liquidator_reward: 5, insurance_fund_amount: 6, shortfall: 0, payout: 19 }
    );
    assert_eq!(ctx.liquidatee_position.realized_pnl, -100);
    assert_eq!(ctx.ask.header.leaf_count, 1);
    assert_eq!(ctx.bids.header.leaf_count, 1);
    assert_eq!(ctx.event_queue.pop().unwrap().side, Side::Sell);
}

#[test]
fn funding_is_settled_before_the_health_check() {
    let mut ctx = liquidation(10, 150, 90, &[(90, 10)], &[]);
    ctx.market.cum_funding = 2 * FUNDING_SCALE as i64;
    let payout = ctx.process(77).unwrap();
    assert_eq!(
        payout,
        LiquidationPayout { liquidator_reward: 4, insurance_fund_amount: 5, shortfall: 0, payout: 21 }
    );
    assert_eq!(ctx.liquidatee_position.realized_pnl, -120);
    assert_eq!(ctx.liquidatee_position.last_cum_funding, 2 * FUNDING_SCALE as i64);
}

#[test]
fn flat_or_healthy_positions_are_left_alone() {
    let mut flat = liquidation(0, 0, 90, &[(90, 10)], &[]);
    assert_eq!(flat.process(77), Err(PerpError::NothingToLiquidate));
    let mut healthy = liquidation(10, 150, 90, &[(90, 10)], &[]);
    assert_eq!(healthy.process(77), Err(PerpError::NothingToLiquidate));
    assert_eq!(healthy.liquidatee_position, position(10, 100));
    assert_eq!(healthy.liquidatee_user_collateral.collateral_amount, 150);
    assert_eq!(healthy.bids.header.leaf_count, 1);
    assert_eq!(healthy.event_queue.count, 0);
    let mut barely = liquidation(10, 149, 90, &[(90, 10)], &[]);
    assert!(barely.process(77).is_ok());
}

#[test]
fn liquidation_refusals() {
    let mut no_mark = liquidation(10, 130, 0, &[(90, 10)], &[]);
    assert_eq!(no_mark.process(77), Err(PerpError::InvalidAmount));
    let mut wide = liquidation(10, 130, 90, &[(90, 10)], &[]);
    wide.liquidatee_position.last_cum_funding = i64::MIN;
    wide.market.cum_funding = 1;
    assert_eq!(wide.process(77), Err(PerpError::MathOverflow));
    let mut full = liquidation(10, 130, 90, &[(90, 10)], &[]);
    full.event_queue = EventQueue::with_capacity(1);
    full.event_queue
        .push(&MatchedOrder {
            is_maker: true,
            order_id: 1,
            user: MAKER,
            fill_price: 1,
            fill_qty: 1,
            side: Side::Buy,
            timestamp: 0,
        })
        .unwrap();
    assert_eq!(full.process(77), Err(PerpError::QueueFull));
    assert_eq!(full.liquidatee_position, position(10, 100));
    assert_eq!(full.liquidatee_user_collateral.collateral_amount, 130);
}

#[test]
fn settlement_from_given_fills() {
    let state = market(80);
    let mut held = position(10, 100);
    held.realized_pnl = -20;
    let mut funds = UserCollateral { owner: OWNER, collateral_amount: 230, last_updated: 3 };
    let fills = vec![
        MatchedOrder {
            is_maker: false,
            order_id: 31,
            user: OWNER,
            fill_price: 90,
            fill_qty: 3,
            side: Side::Sell,
            timestamp: 0,
        },
        MatchedOrder {
            is_maker: false,
            order_id: 31,
            user: OWNER,
            fill_price: 90,
            fill_qty: 1,
            side: Side::Sell,
            timestamp: 0,
        },
    ];
    let payout = settle_liquidation(&state, &mut held, &mut funds, &fills, 6, 80, 5).unwrap();
    assert_eq!(
        payout,
        LiquidationPayout { liquidator_reward: 4, insurance_fund_amount: 4, shortfall: 0, payout: 62 }
    );
    assert_eq!(held.realized_pnl, -180);
    assert_eq!(held.base_position, 0);
    assert_eq!(held.entry_price, 0);
    assert_eq!(held.updated_at, 5);
    assert_eq!(funds, UserCollateral { owner: OWNER, collateral_amount: 0, last_updated: 3 });
}

#[test]
fn settlement_penalty_is_capped_by_the_equity() {
    let mut state = market(100);
    state.liq_penalty_bps = 5000;
    state.liquidator_share_bps = 10_000;
    let mut held = position(10, 100);
    let mut funds = UserCollateral { owner: OWNER, collateral_amount: 30, last_updated: 0 };
    let payout = settle_liquidation(&state, &mut held, &mut funds, &vec![], 10, 100, 5).unwrap();
    // The raw penalty of 500 is capped at the equity of 30, all of it for the liquidator.
    assert_eq!(
        payout,
        LiquidationPayout { liquidator_reward: 30, insurance_fund_amount: 0, shortfall: 0, payout: 0 }
    );
}

#[test]
fn settlement_that_does_not_fit_changes_nothing() {
    let state = market(100);
    let held = position(10, 100);
    let funds = UserCollateral { owner: OWNER, collateral_amount: 30, last_updated: 0 };
    let mut after = held;
    let mut left = funds;
    // Nothing was closed: no mean exit price.
    assert_eq!(
        settle_liquidation(&state, &mut after, &mut left, &vec![], 0, 100, 5),
        Err(PerpError::MathOverflow)
    );
    let mut greedy = market(100);
    greedy.liquidator_share_bps = 20_000;
    assert_eq!(
        settle_liquidation(&greedy, &mut after, &mut left, &vec![], 10, 100, 5),
        Err(PerpError::MathOverflow)
    );
    let rich = UserCollateral { owner: OWNER, collateral_amount: i128::MAX, last_updated: 0 };
    let mut left_rich = rich;
    assert_eq!(
        settle_liquidation(&state, &mut after, &mut left_rich, &vec![], 10, 100, 5),
        Err(PerpError::MathOverflow)
    );
    assert_eq!(after, held);
    assert_eq!(left, funds);
    assert_eq!(left_rich, rich);
}
