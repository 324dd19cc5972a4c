use position_engine::calculations;
use position_engine::collections::SymMap;
use position_engine::errors::EngineError;
use position_engine::orders::AutoClosePositionUnit;
use position_engine::orders::Order;
use position_engine::orders::OrderSide;
use position_engine::orders::StopLossConfig;
use position_engine::orders::TakeProfitConfig;
use position_engine::positions::ActivePosition;
use position_engine::positions::BidAsk;
use position_engine::positions::ClosePositionReason;
use position_engine::positions::Position;
use position_engine::positions::PositionStatus;
use position_engine::symbols::AssetSymbol;
use position_engine::symbols::InstrumentSymbol;
use position_engine::symbols::PositionId;
use position_engine::symbols::WalletId;

const SCALE: i64 = 1_000_000_000_000;

fn fx(v: f64) -> i64 {
    (v * SCALE as f64).round() as i64
}

fn to_f(v: i64) -> f64 {
    v as f64 / SCALE as f64
}

fn asset(s: &str) -> AssetSymbol {
    AssetSymbol::new(s.as_bytes().to_vec())
}

fn instrument(s: &str) -> InstrumentSymbol {
    InstrumentSymbol::new(s.as_bytes().to_vec())
}

fn amounts(items: &[(&str, f64)]) -> SymMap<AssetSymbol, i64> {
    let mut m = SymMap::empty();
    for (a, v) in items {
        m.insert(asset(a), fx(*v));
    }
    m
}

fn new_order(
    instr: &str,
    invest_assets: SymMap<AssetSymbol, i64>,
    leverage: f64,
    side: OrderSide,
) -> Order {
    Order {
        base_asset: asset("USDT"),
        id: b"test".to_vec(),
        instrument: instrument(instr),
        trader_id: b"test".to_vec(),
        wallet_id: WalletId::new(b"test".to_vec()),
        created_date: 0,
        desire_price: None,
        funding_fee_period: None,
        invest_assets,
        leverage: fx(leverage),
        side,
        take_profit: None,
        stop_loss: None,
        stop_out_percent: fx(90.0),
        margin_call_percent: fx(70.0),
        top_up_enabled: false,
        top_up_percent: fx(10.0),
    }
}

fn new_active_position(
    order: Order,
    bidask: &BidAsk,
    asset_prices: &SymMap<AssetSymbol, i64>,
) -> ActivePosition {
    let open_price = bidask.get_open_price(&order.side);
    let current_price = bidask.get_close_price(&order.side);
    let total_invest_assets = order.invest_assets.dup();
    ActivePosition {
        id: PositionId::new(Position::generate_id()),
        open_date: 0,
        open_price,
        open_asset_prices: asset_prices.dup(),
        activate_price: open_price,
        activate_date: 0,
        activate_asset_prices: asset_prices.dup(),
        current_price,
        current_asset_prices: asset_prices.dup(),
        last_update_date: 0,
        top_ups: Vec::new(),
        current_pnl: 0,
        current_loss_percent: 0,
        prev_loss_percent: 0,
        top_up_locked: false,
        total_invest_assets,
        order,
    bonus_invest_assets: SymMap::empty(),
    }
}

#[test]
fn close_active_position() {
    let order = Order {
        base_asset: asset("USDT"),
        id: b"test".to_vec(),
        instrument: instrument("ATOMUSDT"),
        trader_id: b"test".to_vec(),
        wallet_id: WalletId::new(b"test".to_vec()),
        created_date: 0,
        desire_price: None,
        funding_fee_period: None,
        invest_assets: amounts(&[("BTC", 100.0)]),
        leverage: fx(1.0),
        side: OrderSide::Buy,
        take_profit: None,
        stop_loss: None,
        stop_out_percent: fx(10.0),
        margin_call_percent: fx(10.0),
        top_up_enabled: false,
        top_up_percent: fx(10.0),
    };
    let prices = amounts(&[("BTC", 22300.0)]);
    let bidask = BidAsk {
        ask: fx(14.748),
        bid: fx(14.748),
        datetime: 0,
        instrument: instrument("ATOMUSDT"),
    };
    let position = order.open(&bidask, &prices);
    let mut position = match position {
        Position::Active(position) => position,
        _ => panic!("Invalid position"),
    };

    position.current_price = fx(14.75);
    let closed_position = position.close(ClosePositionReason::ClientCommand, None);

    let pnl = closed_position.pnl.unwrap();
    let asset_pnl = *closed_position.asset_pnls.get(&asset("BTC")).unwrap();

    assert_ne!(pnl, asset_pnl);
    assert!((to_f(pnl) - 302.41388662883173).abs() < 1e-4);
    assert!((to_f(asset_pnl) - 0.01356116083537362).abs() < 1e-9);
}

#[test]
fn close_by_tp() {
    let prices = amounts(&[("USDT", 1.0)]);
    let invest_assets = amounts(&[("USDT", 100342.0)]);
    let order = new_order("ATOMUSDT", invest_assets, 1.0, OrderSide::Sell);
    let bidask = BidAsk {
        ask: fx(13.815),
        bid: fx(13.815),
        datetime: 0,
        instrument: instrument("ATOMUSDT"),
    };
    let mut position = new_active_position(order, &bidask, &prices);
    let take_profit = TakeProfitConfig {
        unit: AutoClosePositionUnit::PriceRateUnit,
        value: fx(13.817),
    };
    position.set_take_profit(Some(take_profit));
    position.current_price = fx(13.817);

    let position = position.try_close();
    let _position = match position {
        Position::Closed(position) => position,
        _ => panic!("must be closed"),
    };
}

#[test]
fn stop_out_takes_precedence_over_stop_loss() {
    // A tick meeting both stop-loss and stop-out closes by stop-out.
    let prices = amounts(&[("USDT", 1.0)]);
    let invest_assets = amounts(&[("USDT", 1000.0)]);
    let mut order = new_order("ATOMUSDT", invest_assets, 1.0, OrderSide::Buy);
    order.stop_out_percent = fx(50.0);
    order.stop_loss = Some(StopLossConfig {
        unit: AutoClosePositionUnit::AssetAmountUnit,
        value: fx(10.0),
    });
    let bidask = BidAsk {
        ask: fx(10.0),
        bid: fx(10.0),
        datetime: 0,
        instrument: instrument("ATOMUSDT"),
    };
    let mut position = new_active_position(order, &bidask, &prices);
    // 40% drop: pnl is -400 on a 1000 invest, loss percent 40 < 50: only
    // the stop-loss holds.
    position.current_price = fx(6.0);
    assert_eq!(
        position.determine_close_reason(),
        Some(ClosePositionReason::StopLoss)
    );
    // 60% drop: both stop-loss and stop-out hold; stop-out wins.
    position.current_price = fx(4.0);
    assert_eq!(
        position.determine_close_reason(),
        Some(ClosePositionReason::StopOut)
    );
}

#[test]
fn pending_close_is_canceled_without_activation() {
    let prices = amounts(&[("USDT", 1.0)]);
    let invest_assets = amounts(&[("USDT", 100.0)]);
    let mut order = new_order("ATOMUSDT", invest_assets, 1.0, OrderSide::Buy);
    order.desire_price = Some(fx(5.0));
    let bidask = BidAsk {
        ask: fx(10.0),
        bid: fx(10.0),
        datetime: 7,
        instrument: instrument("ATOMUSDT"),
    };
    let position = order.open(&bidask, &prices);
    let pending = match position {
        Position::Pending(p) => p,
        _ => panic!("expected a pending position"),
    };
    let closed = pending.close(ClosePositionReason::ClientCommand);
    assert!(closed.pnl.is_none());
    assert_eq!(closed.get_status(), PositionStatus::Canceled);
}

#[test]
fn validate_prices_reports_missing_price() {
    let invest_assets = amounts(&[("BTC", 1.0), ("ETH", 2.0)]);
    let order = new_order("ATOMUSDT", invest_assets, 1.0, OrderSide::Buy);
    let prices = amounts(&[("BTC", 22300.0)]);
    assert_eq!(
        order.validate_prices(&prices),
        Err(EngineError::PriceNotFound)
    );
    let full = amounts(&[("BTC", 22300.0), ("ETH", 1500.0)]);
    assert_eq!(order.validate_prices(&full), Ok(()));
}

#[test]
fn position_update_shifts_prev_loss_percent() {
    // After an update the previous loss percent is the loss percent from
    // just before it.
    let prices = amounts(&[("USDT", 1.0)]);
    let invest_assets = amounts(&[("USDT", 1000.0)]);
    let order = new_order("ATOMUSDT", invest_assets, 1.0, OrderSide::Buy);
    let bidask = BidAsk {
        ask: fx(10.0),
        bid: fx(10.0),
        datetime: 0,
        instrument: instrument("ATOMUSDT"),
    };
    let mut position = new_active_position(order, &bidask, &prices);
    let tick1 = BidAsk {
        ask: fx(9.0),
        bid: fx(9.0),
        datetime: 1,
        instrument: instrument("ATOMUSDT"),
    };
    position.update(&tick1);
    let loss_after_first = position.current_loss_percent;
    assert_eq!(loss_after_first, fx(10.0));
    let tick2 = BidAsk {
        ask: fx(8.0),
        bid: fx(8.0),
        datetime: 2,
        instrument: instrument("ATOMUSDT"),
    };
    position.update(&tick2);
    assert_eq!(position.prev_loss_percent, loss_after_first);
    assert_eq!(position.current_loss_percent, fx(20.0));
}

#[test]
fn percent_and_rounding_formulas() {
    assert_eq!(calculations::calculate_percent(fx(1000.0), fx(150.0)), fx(15.0));
    assert_eq!(
        calculations::calculate_margin_percent(fx(1000.0), fx(-100.0)),
        fx(90.0)
    );
    assert_eq!(calculations::round(fx(1.2345), 2), fx(1.23));
    assert_eq!(calculations::round(fx(1.235), 2), fx(1.24));
    assert_eq!(calculations::round(fx(-1.235), 2), fx(-1.24));
    assert_eq!(calculations::floor(fx(1.29), 1), fx(1.2));
    assert_eq!(calculations::floor(fx(-1.21), 1), fx(-1.3));
    assert_eq!(calculations::ceil(fx(1.21), 1), fx(1.3));
    assert_eq!(calculations::ceil(fx(-1.29), 1), fx(-1.2));
}

#[test]
fn instrument_symbol_is_the_concatenation() {
    let a = asset("BTC");
    let b = asset("USDT");
    let i = BidAsk::get_instrument_symbol(&a, &b);
    assert_eq!(i.bytes, b"BTCUSDT".to_vec());
    let j = BidAsk::generate_id(&a, &b);
    assert_eq!(j.bytes, b"BTCUSDT".to_vec());
}
