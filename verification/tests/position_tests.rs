use perp_dex::engine::funding::FUNDING_SCALE;
use perp_dex::engine::position_manager::PositionManager;
use perp_dex::error::PerpError;
use perp_dex::state::market::MarketState;
use perp_dex::state::order::MatchedOrder;
use perp_dex::state::position::{OrderStatus, OrderType, Position, Side};
use perp_dex::state::user_collateral::UserCollateral;

fn market(cum_funding: i64) -> MarketState {
    MarketState {
        symbol: String::from("SOL-PERP"),
        authority: [1u8; 32],
        oracle_pubkey: [2u8; 32],
        last_oracle_price: 100,
        last_oracle_ts: 0,
        bid: [3u8; 32],
        asks: [4u8; 32],
        im_bps: 1000,
        mm_bps: 500,
        taker_fee_bps: 0,
        maker_fee_bps: 0,
        liquidator_share_bps: 5000,
        liq_penalty_bps: 100,
        oracle_band_bps: 0,
        cum_funding,
        last_funding_ts: 0,
        max_funding_rate: 100,
        funding_interval_secs: 28_800,
        tick_size: 1,
        step_size: 1,
        min_order_notional: 0,
        bump: 255,
    }
}

fn position(base: i64, entry: u64) -> Position {
    Position {
        owner: [9u8; 32],
        market: [5u8; 32],
        order_id: 1,
        side: Side::Buy,
        price: 0,
        qty: 0,
        order_type: OrderType::Limit,
        status: OrderStatus::Filled,
        base_position: base,
        entry_price: entry,
        realized_pnl: 0,
        last_cum_funding: 0,
        initial_margin: 0,
        leverage: 1,
        flags: 0,
        created_at: 0,
        updated_at: 0,
    }
}

fn collateral(amount: i128) -> UserCollateral {
    UserCollateral { owner: [9u8; 32], collateral_amount: amount, last_updated: 0 }
}

fn fill(side: Side, qty: u64, price: u64) -> MatchedOrder {
    MatchedOrder {
        is_maker: false,
        order_id: 1,
        user: [9u8; 32],
        fill_price: price,
        fill_qty: qty,
        side,
        timestamp: 0,
    }
}

#[test]
fn opening_from_flat() {
    let mut held = position(0, 0);
    held.realized_pnl = 55;
    let mut funds = collateral(1000);
    let state = market(7);
    assert_eq!(
        PositionManager::apply_fill(&state, &mut held, &mut funds, fill(Side::Buy, 10, 100), 99),
        Ok(())
    );
    assert_eq!(held.base_position, 10);
    assert_eq!(held.entry_price, 100);
    assert_eq!(held.realized_pnl, 0);
    assert_eq!(held.last_cum_funding, 7);
    assert_eq!(held.updated_at, 99);
    assert_eq!(funds.collateral_amount, 1000);
}

#[test]
fn opening_short_from_flat() {
    let mut held = position(0, 0);
    let mut funds = collateral(1000);
    PositionManager::apply_fill(&market(0), &mut held, &mut funds, fill(Side::Sell, 10, 100), 1)
        .unwrap();
    assert_eq!(held.base_position, -10);
    assert_eq!(held.entry_price, 100);
    assert_eq!(funds.collateral_amount, 1000);
}

#[test]
fn same_side_add_averages_the_entry() {
    let mut held = position(10, 100);
    let mut funds = collateral(1000);
    PositionManager::apply_fill(&market(0), &mut held, &mut funds, fill(Side::Buy, 5, 120), 1)
        .unwrap();
    assert_eq!(held.base_position, 15);
    assert_eq!(held.entry_price, 106);
    assert_eq!(held.realized_pnl, 0);
    assert_eq!(funds.collateral_amount, 1000);
}

#[test]
fn same_side_add_to_a_short() {
    let mut held = position(-10, 100);
    let mut funds = collateral(1000);
    PositionManager::apply_fill(&market(0), &mut held, &mut funds, fill(Side::Sell, 30, 80), 1)
        .unwrap();
    assert_eq!(held.base_position, -40);
    assert_eq!(held.entry_price, 85);
    assert_eq!(held.realized_pnl, 0);
}

#[test]
fn partial_close_long_profit() {
    let mut held = position(10, 100);
    let mut funds = collateral(1000);
    PositionManager::apply_fill(&market(0), &mut held, &mut funds, fill(Side::Sell, 5, 120), 1)
        .unwrap();
    assert_eq!(held.base_position, 5);
    assert_eq!(held.entry_price, 100);
    assert_eq!(held.realized_pnl, 100);
    assert_eq!(funds.collateral_amount, 1100);
}

#[test]
fn partial_close_short_loss() {
    let mut held = position(-10, 100);
    let mut funds = collateral(1000);
    PositionManager::apply_fill(&market(0), &mut held, &mut funds, fill(Side::Buy, 4, 120), 1)
        .unwrap();
    assert_eq!(held.base_position, -6);
    assert_eq!(held.entry_price, 100);
    assert_eq!(held.realized_pnl, -80);
    assert_eq!(funds.collateral_amount, 920);
}

#[test]
fn full_close_long() {
    let mut held = position(10, 100);
    let mut funds = collateral(1000);
    PositionManager::apply_fill(&market(0), &mut held, &mut funds, fill(Side::Sell, 10, 120), 1)
        .unwrap();
    assert_eq!(held.base_position, 0);
    assert_eq!(held.entry_price, 0);
    assert_eq!(held.realized_pnl, 200);
    assert_eq!(funds.collateral_amount, 1200);
}

#[test]
fn flip_long_to_short() {
    let mut held = position(10, 100);
    let mut funds = collateral(1000);
    PositionManager::apply_fill(&market(0), &mut held, &mut funds, fill(Side::Sell, 15, 120), 1)
        .unwrap();
    assert_eq!(held.base_position, -5);
    assert_eq!(held.entry_price, 120);
    assert_eq!(held.realized_pnl, 200);
    assert_eq!(funds.collateral_amount, 1200);
}

#[test]
fn flip_short_to_long() {
    let mut held = position(-10, 100);
    let mut funds = collateral(1000);
    PositionManager::apply_fill(&market(0), &mut held, &mut funds, fill(Side::Buy, 12, 90), 1)
        .unwrap();
    assert_eq!(held.base_position, 2);
    assert_eq!(held.entry_price, 90);
    assert_eq!(held.realized_pnl, 100);
    assert_eq!(funds.collateral_amount, 1100);
}

#[test]
fn funding_is_settled_before_the_fill() {
    let mut held = position(10, 100);
    let mut funds = collateral(1000);
    let state = market(2 * FUNDING_SCALE as i64);
    PositionManager::apply_fill(&state, &mut held, &mut funds, fill(Side::Buy, 0, 100), 1).unwrap();
    assert_eq!(held.realized_pnl, -20);
    assert_eq!(funds.collateral_amount, 980);
    assert_eq!(held.last_cum_funding, 2 * FUNDING_SCALE as i64);
    assert_eq!(held.base_position, 10);
    assert_eq!(held.entry_price, 100);
}

#[test]
fn short_receives_funding_and_division_rounds_toward_zero() {
    let mut held = position(-10, 100);
    held.last_cum_funding = 5;
    let mut funds = collateral(1000);
    let state = market(5 + 2 * FUNDING_SCALE as i64);
    PositionManager::apply_fill(&state, &mut held, &mut funds, fill(Side::Sell, 5, 100), 1)
        .unwrap();
    assert_eq!(held.realized_pnl, 20);
    assert_eq!(funds.collateral_amount, 1020);
    assert_eq!(held.base_position, -15);
    // A delta of 150_000_000 on 3 units is 0.45, which rounds to 0 both ways.
    let mut long = position(3, 100);
    let mut short = position(-3, 100);
    let mut long_funds = collateral(0);
    let mut short_funds = collateral(0);
    let state = market(150_000_000);
    PositionManager::apply_fill(&state, &mut long, &mut long_funds, fill(Side::Buy, 1, 100), 1)
        .unwrap();
    PositionManager::apply_fill(&state, &mut short, &mut short_funds, fill(Side::Sell, 1, 100), 1)
        .unwrap();
    assert_eq!(long_funds.collateral_amount, 0);
    assert_eq!(short_funds.collateral_amount, 0);
    // A delta of -1_500_000_000 on 3 units is -4.5, which rounds to -4.
    let mut long = position(3, 100);
    let mut funds = collateral(0);
    PositionManager::apply_fill(
        &market(-1_500_000_000),
        &mut long,
        &mut funds,
        fill(Side::Buy, 1, 100),
        1,
    )
    .unwrap();
    assert_eq!(funds.collateral_amount, 4);
    assert_eq!(long.realized_pnl, 4);
}

#[test]
fn fills_that_do_not_fit_change_nothing() {
    let cases: Vec<(Position, UserCollateral, MarketState, MatchedOrder)> = vec![
        (position(0, 0), collateral(0), market(0), fill(Side::Buy, u64::MAX, 1)),
        (position(10, 100), collateral(0), market(0), fill(Side::Buy, 1 << 63, 1)),
        (position(i64::MAX, 100), collateral(0), market(0), fill(Side::Buy, 1, 1)),
        (position(i64::MIN, 100), collateral(0), market(0), fill(Side::Sell, 1, 1)),
        (position(10, 100), collateral(i128::MIN), market(1_000_000_000), fill(Side::Buy, 1, 1)),
        (position(10, 100), collateral(i128::MAX), market(0), fill(Side::Sell, 1, 101)),
        (
            position(i64::MAX, u64::MAX),
            collateral(0),
            market(0),
            fill(Side::Sell, i64::MAX as u64, 0),
        ),
        (
            Position { last_cum_funding: i64::MIN, ..position(1, 1) },
            collateral(0),
            market(1),
            fill(Side::Sell, 1, 1),
        ),
    ];
    for (held, funds, state, event) in cases {
        let mut after = held;
        let mut left = funds;
        assert_eq!(
            PositionManager::apply_fill(&state, &mut after, &mut left, event, 1),
            Err(PerpError::MathOverflow)
        );
        assert_eq!(after, held);
        assert_eq!(left, funds);
    }
}

#[test]
fn largest_positions_still_fit() {
    let mut held = position(i64::MAX - 1, 100);
    let mut funds = collateral(0);
    PositionManager::apply_fill(&market(0), &mut held, &mut funds, fill(Side::Buy, 1, 100), 1)
        .unwrap();
    assert_eq!(held.base_position, i64::MAX);
    assert_eq!(held.entry_price, 100);
    let mut short = position(0, 0);
    PositionManager::apply_fill(
        &market(0),
        &mut short,
        &mut funds,
        fill(Side::Sell, i64::MAX as u64, 5),
        1,
    )
    .unwrap();
    assert_eq!(short.base_position, -i64::MAX);
}
