use position_engine::caches::BidAsksCache;
use position_engine::caches::PositionsCache;
use position_engine::collections::SymMap;
use position_engine::orders::Order;
use position_engine::orders::OrderSide;
use position_engine::positions::BidAsk;
use position_engine::positions::Position;
use position_engine::symbols::AssetSymbol;
use position_engine::symbols::InstrumentSymbol;
use position_engine::symbols::PositionId;
use position_engine::symbols::WalletId;
use uuid::Uuid;

const SCALE: i64 = 1_000_000_000_000;

fn fx(v: f64) -> i64 {
    (v * SCALE as f64).round() as i64
}

fn asset(s: &str) -> AssetSymbol {
    AssetSymbol::new(s.as_bytes().to_vec())
}

fn instrument(s: &str) -> InstrumentSymbol {
    InstrumentSymbol::new(s.as_bytes().to_vec())
}

fn amounts(items: &[(&str, f64)]) -> SymMap<AssetSymbol, i64> {
    let mut m = SymMap::empty();
    for (a, v) in items {
        m.insert(asset(a), fx(*v));
    }
    m
}

fn new_position_with_wallet(wallet_id: &WalletId) -> Position {
    let order = Order {
        base_asset: asset("USDT"),
        id: b"test".to_vec(),
        instrument: instrument("ATOMUSDT"),
        trader_id: b"test".to_vec(),
        wallet_id: WalletId::new(wallet_id.bytes.clone()),
        created_date: 0,
        desire_price: None,
        funding_fee_period: None,
        invest_assets: amounts(&[("BTC", 100.0)]),
        leverage: fx(1.0),
        side: OrderSide::Buy,
        take_profit: None,
        stop_loss: None,
        stop_out_percent: fx(10.0),
        margin_call_percent: fx(10.0),
        top_up_enabled: false,
        top_up_percent: fx(10.0),
    };
    let prices = amounts(&[("BTC", 22300.0)]);
    let bidask = BidAsk {
        ask: fx(14.748),
        bid: fx(14.748),
        datetime: 0,
        instrument: instrument("ATOMUSDT"),
    };
    order.open(&bidask, &prices)
}

fn new_position() -> Position {
    let wallet_id = WalletId::new(Uuid::new_v4().to_string().into_bytes());
    new_position_with_wallet(&wallet_id)
}

#[test]
fn positions_cache_is_empty() {
    let cache = PositionsCache::with_capacity(10);

    assert!(cache.is_empty());
}

#[test]
fn positions_cache_add() {
    let position = new_position();
    let mut cache = PositionsCache::with_capacity(10);

    cache.add(position);

    assert!(!cache.is_empty());
}

#[test]
fn positions_cache_remove() {
    let position = new_position();
    let id = PositionId::new(position.get_id().bytes.clone());
    let wallet_id = WalletId::new(position.get_order().wallet_id.bytes.clone());
    let mut cache = PositionsCache::with_capacity(10);

    cache.add(position);
    assert!(!cache.is_empty());

    cache.remove(&id);
    let positions = cache.get_by_wallet_id(&wallet_id, 1);

    assert_eq!(positions.len(), 0);
    assert!(cache.is_empty());
}

#[test]
fn positions_cache_get_by_wallet() {
    let position = new_position();
    let wallet_id = WalletId::new(position.get_order().wallet_id.bytes.clone());
    let mut cache = PositionsCache::with_capacity(10);

    cache.add(position);
    let positions = cache.get_by_wallet_id(&wallet_id, 1);

    assert!(!positions.is_empty());
}

#[test]
fn positions_cache_get_by_wallet_with_limit() {
    let count = 10;
    let mut cache = PositionsCache::with_capacity(count);
    let limit = 1;
    let wallet_id = WalletId::new(Uuid::new_v4().to_string().into_bytes());
    let position = new_position_with_wallet(&wallet_id);
    cache.add(position);

    for _i in 0..count - 1 {
        cache.add(new_position_with_wallet(&wallet_id));
    }

    let positions = cache.get_by_wallet_id(&wallet_id, limit);

    assert_eq!(cache.count(), count);
    assert_eq!(positions.len(), limit);
}

#[test]
fn positions_cache_add_is_idempotent() {
    // Adding the same position twice leaves exactly one copy in both indexes.
    let wallet_id = WalletId::new(b"w-idem".to_vec());
    let mut cache = PositionsCache::with_capacity(4);
    let first = new_position_with_wallet(&wallet_id);
    let id = PositionId::new(first.get_id().bytes.clone());
    cache.add(first);
    let mut second = new_position_with_wallet(&wallet_id);
    match &mut second {
        Position::Active(a) => a.id = PositionId::new(id.bytes.clone()),
        Position::Pending(p) => p.id = PositionId::new(id.bytes.clone()),
        Position::Closed(c) => c.id = PositionId::new(id.bytes.clone()),
    }
    cache.add(second);

    assert_eq!(cache.count(), 1);
    assert_eq!(cache.get_by_wallet_id(&wallet_id, 10).len(), 1);
}

#[test]
fn positions_cache_remove_inverts_add() {
    // Removing a freshly added position restores the pre-add state.
    let wallet_id = WalletId::new(b"w-inv".to_vec());
    let mut cache = PositionsCache::with_capacity(4);
    let position = new_position_with_wallet(&wallet_id);
    let id = PositionId::new(position.get_id().bytes.clone());

    cache.add(position);
    let removed = cache.remove(&id);

    assert!(removed.is_some());
    assert!(cache.is_empty());
    assert_eq!(cache.get_by_wallet_id(&wallet_id, 10).len(), 0);
    assert!(!cache.contains_by_wallet_id(&wallet_id));
}

#[test]
fn bidasks_cache_update_get_and_find() {
    let mut cache = BidAsksCache::new(Vec::new());
    let q = BidAsk {
        instrument: instrument("BTCUSDT"),
        datetime: 1,
        bid: fx(499.0),
        ask: fx(500.0),
    };
    cache.update(q);
    let got = cache.get(&instrument("BTCUSDT")).expect("stored");
    assert_eq!(got.ask, fx(500.0));
    assert!(cache.get(&instrument("ETHUSDT")).is_none());

    let found = cache.find(&asset("USDT"), &vec![asset("BTC"), asset("ETH")]);
    assert!(found.get(&instrument("BTCUSDT")).is_some());
    assert!(found.get(&instrument("ETHUSDT")).is_none());

    let prices = cache.find_prices(&asset("USDT"), &vec![asset("BTC"), asset("USDT"), asset("ETH")]);
    assert_eq!(prices.get(&asset("BTC")).copied(), Some(fx(500.0)));
    assert_eq!(prices.get(&asset("USDT")).copied(), Some(SCALE));
    assert!(prices.get(&asset("ETH")).is_none());
}

#[test]
fn generated_position_ids_have_uuid_shape() {
    let a = Position::generate_id();
    let b = Position::generate_id();
    assert_eq!(a.len(), 36);
    assert_eq!(b.len(), 36);
    assert_ne!(a, b);
}
