use position_engine::collections::SymMap;
use position_engine::errors::EngineError;
use position_engine::monitoring::PositionMonitoringEvent;
use position_engine::monitoring::PositionsMonitor;
use position_engine::orders::Order;
use position_engine::orders::OrderSide;
use position_engine::positions::ActivePosition;
use position_engine::positions::ActiveTopUp;
use position_engine::positions::BidAsk;
use position_engine::positions::ClosePositionReason;
use position_engine::positions::Position;
use position_engine::symbols::AssetSymbol;
use position_engine::symbols::InstrumentSymbol;
use position_engine::symbols::PositionId;
use position_engine::symbols::WalletId;
use position_engine::wallets::Wallet;
use position_engine::wallets::WalletBalance;

const SCALE: i64 = 1_000_000_000_000;

fn fx(v: f64) -> i64 {
    (v * SCALE as f64).round() as i64
}

fn asset(s: &str) -> AssetSymbol {
    AssetSymbol::new(s.as_bytes().to_vec())
}

fn instrument(s: &str) -> InstrumentSymbol {
    InstrumentSymbol::new(s.as_bytes().to_vec())
}

fn amounts(items: &[(&str, f64)]) -> SymMap<AssetSymbol, i64> {
    let mut m = SymMap::empty();
    for (a, v) in items {
        m.insert(asset(a), fx(*v));
    }
    m
}

fn quote(instr: &str, price: f64, at: i64) -> BidAsk {
    BidAsk {
        instrument: instrument(instr),
        datetime: at,
        bid: fx(price),
        ask: fx(price),
    }
}

fn new_monitor(wallet_monitoring: bool) -> PositionsMonitor {
    PositionsMonitor::new(16, 1_000_000, fx(5.0), None, wallet_monitoring)
}

fn usdt_order(wallet: &str, stop_out: f64, top_up_enabled: bool, top_up_percent: f64) -> Order {
    Order {
        base_asset: asset("USDT"),
        id: b"order-1".to_vec(),
        instrument: instrument("ATOMUSDT"),
        trader_id: b"trader-1".to_vec(),
        wallet_id: WalletId::new(wallet.as_bytes().to_vec()),
        created_date: 0,
        desire_price: None,
        funding_fee_period: None,
        invest_assets: amounts(&[("USDT", 1000.0)]),
        leverage: fx(1.0),
        side: OrderSide::Buy,
        take_profit: None,
        stop_loss: None,
        stop_out_percent: fx(stop_out),
        margin_call_percent: fx(200.0),
        top_up_enabled,
        top_up_percent: fx(top_up_percent),
    }
}

fn open_active(order: Order, price: f64) -> (PositionId, Position) {
    let prices = amounts(&[("USDT", 1.0)]);
    let q = quote("ATOMUSDT", price, 0);
    let position = order.open(&q, &prices);
    let id = PositionId::new(position.get_id().bytes.clone());
    (id, position)
}

#[test]
fn pending_position_activates_at_desire_price() {
    // A limit buy at 10.0 ignores a tick at 10.5 and activates at 9.9.
    let mut monitor = new_monitor(false);
    let mut order = usdt_order("w-act", 90.0, false, 10.0);
    order.desire_price = Some(fx(10.0));
    let prices = amounts(&[("USDT", 1.0)]);
    let open_quote = quote("ATOMUSDT", 10.6, 0);
    let position = order.open(&open_quote, &prices);
    assert!(matches!(position, Position::Pending(_)));
    monitor.add(position);

    let events = monitor.update(&quote("ATOMUSDT", 10.5, 1));
    assert!(events
        .iter()
        .all(|e| !matches!(e, PositionMonitoringEvent::PositionActivated(_))));

    let events = monitor.update(&quote("ATOMUSDT", 9.9, 2));
    let mut activated = None;
    for e in events {
        if let PositionMonitoringEvent::PositionActivated(a) = e {
            activated = Some(a);
        }
    }
    let activated = activated.expect("the pending position must activate");
    assert_eq!(activated.activate_price, fx(9.9));
}

#[test]
fn wallet_margin_call_fires_on_the_crossing_tick_only() {
    // Loss 15% crosses the 12% threshold: one call; staying above emits
    // nothing; dropping below and crossing again emits again.
    let mut monitor = new_monitor(true);
    let mut wallet = Wallet::new(
        WalletId::new(b"w-edge".to_vec()),
        b"trader-1".to_vec(),
        asset("USDT"),
        fx(12.0),
    );
    wallet
        .add_balance(
            WalletBalance {
                id: b"balance-1".to_vec(),
                instrument_symbol: instrument("BTCUSDT"),
                asset_symbol: asset("BTC"),
                asset_amount: fx(2.0),
                is_locked: false,
            },
            &quote("BTCUSDT", 500.0, 0),
        )
        .unwrap();
    assert_eq!(wallet.total_unlocked_balance, fx(1000.0));
    monitor.add_wallet(wallet);
    assert!(monitor.contains_wallet(&WalletId::new(b"w-edge".to_vec())));

    let order = usdt_order("w-edge", 1000.0, true, 1000.0);
    let (_, position) = open_active(order, 10.0);
    assert!(matches!(position, Position::Active(_)));
    monitor.add(position);

    let calls = |events: &[PositionMonitoringEvent]| {
        events
            .iter()
            .filter_map(|e| match e {
                PositionMonitoringEvent::WalletMarginCall(info) => Some(info.loss_percent),
                _ => None,
            })
            .collect::<Vec<_>>()
    };

    // pnl -100: loss 10%, below the threshold.
    let events = monitor.update(&quote("ATOMUSDT", 9.0, 1));
    assert_eq!(calls(&events).len(), 0);
    // pnl -150: loss 15%, crossing: exactly one call carrying 15%.
    let events = monitor.update(&quote("ATOMUSDT", 8.5, 2));
    assert_eq!(calls(&events), vec![fx(15.0)]);
    // pnl -160: loss 16%, still above: no call.
    let events = monitor.update(&quote("ATOMUSDT", 8.4, 3));
    assert_eq!(calls(&events).len(), 0);
    // pnl -80: loss 8%, back under.
    let events = monitor.update(&quote("ATOMUSDT", 9.2, 4));
    assert_eq!(calls(&events).len(), 0);
    // pnl -150 again: crossing again: a call again.
    let events = monitor.update(&quote("ATOMUSDT", 8.5, 5));
    assert_eq!(calls(&events), vec![fx(15.0)]);
}

#[test]
fn locked_position_is_skipped_until_unlocked() {
    // A position locked for a top-up takes no transitions on later ticks;
    // after unlock a qualifying tick closes it.
    let mut monitor = new_monitor(false);
    // Top-up band at 5% loss; stop-out at 90%.
    let order = usdt_order("w-lock", 90.0, true, 5.0);
    let (id, position) = open_active(order, 10.0);
    monitor.add(position);

    // Loss 10%: the position enters the top-up band and is locked.
    let events = monitor.update(&quote("ATOMUSDT", 9.0, 1));
    assert!(events
        .iter()
        .any(|e| matches!(e, PositionMonitoringEvent::PositionLocked(_))));

    // Three ticks deep enough to stop out; the locked position is skipped.
    for t in 2..5 {
        let events = monitor.update(&quote("ATOMUSDT", 0.5, t));
        assert!(events
            .iter()
            .all(|e| !matches!(e, PositionMonitoringEvent::PositionClosed(_))));
        assert!(events
            .iter()
            .all(|e| !matches!(e, PositionMonitoringEvent::PositionMarginCall(_))));
    }
    // While locked, remove is refused.
    assert!(monitor.remove(&id).is_none());

    monitor.unlock(&id);
    let events = monitor.update(&quote("ATOMUSDT", 0.5, 5));
    let closed = events
        .iter()
        .find_map(|e| match e {
            PositionMonitoringEvent::PositionClosed(c) => Some(c),
            _ => None,
        })
        .expect("the unlocked position must close");
    assert_eq!(closed.close_reason, ClosePositionReason::StopOut);
    assert_eq!(monitor.count(), 0);
}

#[test]
fn update_touches_positions_under_every_order_instrument() {
    // A position is indexed under its traded instrument and under each
    // invested asset's pair with the base asset.
    let mut monitor = new_monitor(false);
    let order = Order {
        base_asset: asset("USDT"),
        id: b"order-2".to_vec(),
        instrument: instrument("ATOMUSDT"),
        trader_id: b"trader-1".to_vec(),
        wallet_id: WalletId::new(b"w-idx".to_vec()),
        created_date: 0,
        desire_price: None,
        funding_fee_period: None,
        invest_assets: amounts(&[("BTC", 1.0)]),
        leverage: fx(1.0),
        side: OrderSide::Buy,
        take_profit: None,
        stop_loss: None,
        stop_out_percent: fx(90.0),
        margin_call_percent: fx(200.0),
        top_up_enabled: false,
        top_up_percent: fx(10.0),
    };
    let prices = amounts(&[("BTC", 20000.0)]);
    let q = quote("ATOMUSDT", 10.0, 0);
    let position = order.open(&q, &prices);
    let id = PositionId::new(position.get_id().bytes.clone());
    monitor.add(position);

    // A quote for the invested asset's instrument refreshes its price.
    let _ = monitor.update(&quote("BTCUSDT", 21000.0, 1));
    let p = monitor.get_mut(&id).expect("cached");
    match p {
        Position::Active(a) => {
            assert_eq!(
                a.current_asset_prices.get(&asset("BTC")).copied(),
                Some(fx(21000.0))
            );
        },
        _ => panic!("expected an active position"),
    }
}

#[test]
fn wallet_loss_aggregates_positions_of_the_wallet() {
    // Two top-up-enabled positions of one wallet: the wallet's loss uses
    // the sum of their profit-and-loss on the tick.
    let mut monitor = new_monitor(true);
    let mut wallet = Wallet::new(
        WalletId::new(b"w-sum".to_vec()),
        b"trader-1".to_vec(),
        asset("USDT"),
        fx(90.0),
    );
    wallet
        .add_balance(
            WalletBalance {
                id: b"balance-1".to_vec(),
                instrument_symbol: instrument("BTCUSDT"),
                asset_symbol: asset("BTC"),
                asset_amount: fx(2.0),
                is_locked: false,
            },
            &quote("BTCUSDT", 500.0, 0),
        )
        .unwrap();
    monitor.add_wallet(wallet);

    let mut o1 = usdt_order("w-sum", 1000.0, true, 1000.0);
    o1.id = b"order-a".to_vec();
    let (_, p1) = open_active(o1, 10.0);
    monitor.add(p1);
    let mut o2 = usdt_order("w-sum", 1000.0, true, 1000.0);
    o2.id = b"order-b".to_vec();
    let (_, p2) = open_active(o2, 10.0);
    monitor.add(p2);

    // Each position loses 100 on this tick: the wallet sees -200, a 20%
    // loss of its 1000 unlocked balance.
    let _ = monitor.update(&quote("ATOMUSDT", 9.0, 1));
    let wid = WalletId::new(b"w-sum".to_vec());
    let w = monitor.get_wallet_mut(&wid).expect("wallet stored");
    assert_eq!(w.current_loss_percent, fx(20.0));
}

#[test]
fn add_top_up_routes_only_into_active_positions() {
    let mut monitor = new_monitor(false);
    let order = usdt_order("w-top", 90.0, true, 5.0);
    let (_, position) = open_active(order, 10.0);
    let active = match &position {
        Position::Active(a) => a.dup(),
        _ => panic!("expected active"),
    };
    let top_up = |amount: f64| ActiveTopUp {
        id: b"top-1".to_vec(),
        date: 1,
        price: fx(9.0),
        assets: amounts(&[("USDT", amount)]),
    };

    // Unknown id: not found.
    assert_eq!(
        monitor.add_top_up(&active, top_up(50.0)),
        Err(EngineError::PositionNotFound)
    );

    monitor.add(position);
    assert_eq!(monitor.add_top_up(&active, top_up(50.0)), Ok(()));

    // A pending position refuses top-ups.
    let mut pending_order = usdt_order("w-top2", 90.0, true, 5.0);
    pending_order.id = b"order-p".to_vec();
    pending_order.desire_price = Some(fx(5.0));
    let prices = amounts(&[("USDT", 1.0)]);
    let p = pending_order.open(&quote("ATOMUSDT", 10.0, 0), &prices);
    let pid = PositionId::new(p.get_id().bytes.clone());
    monitor.add(p);
    let mut fake = active.dup();
    fake.id = pid;
    assert_eq!(
        monitor.add_top_up(&fake, top_up(50.0)),
        Err(EngineError::TopUpOnPendingPosition)
    );
}

#[test]
fn monitor_add_is_idempotent_and_remove_inverts_it() {
    let mut monitor = new_monitor(false);
    let order = usdt_order("w-mon", 90.0, false, 10.0);
    let (id, position) = open_active(order, 10.0);
    let copy = match &position {
        Position::Active(a) => Position::Active(a.dup()),
        _ => panic!("expected active"),
    };
    monitor.add(position);
    monitor.add(copy);
    assert_eq!(monitor.count(), 1);

    let removed = monitor.remove(&id);
    assert!(removed.is_some());
    assert_eq!(monitor.count(), 0);
    let wid = WalletId::new(b"w-mon".to_vec());
    assert_eq!(monitor.get_by_wallet_id(&wid, 10).len(), 0);
}
