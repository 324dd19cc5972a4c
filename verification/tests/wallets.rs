use position_engine::collections::SymMap;
use position_engine::errors::EngineError;
use position_engine::positions::BidAsk;
use position_engine::symbols::AssetSymbol;
use position_engine::symbols::InstrumentSymbol;
use position_engine::symbols::WalletId;
use position_engine::wallets::Wallet;
use position_engine::wallets::WalletBalance;

const SCALE: i64 = 1_000_000_000_000;

fn fx(v: f64) -> i64 {
    (v * SCALE as f64).round() as i64
}

fn asset(s: &str) -> AssetSymbol {
    AssetSymbol::new(s.as_bytes().to_vec())
}

fn instrument(s: &str) -> InstrumentSymbol {
    InstrumentSymbol::new(s.as_bytes().to_vec())
}

fn amounts(items: &[(&str, f64)]) -> SymMap<AssetSymbol, i64> {
    let mut m = SymMap::empty();
    for (a, v) in items {
        m.insert(asset(a), fx(*v));
    }
    m
}

fn new_wallet() -> Wallet {
    Wallet::new(
        WalletId::new(b"wallet-1".to_vec()),
        b"trader-1".to_vec(),
        asset("USDT"),
        fx(12.0),
    )
}

fn btc_balance(amount: f64, locked: bool) -> WalletBalance {
    WalletBalance {
        id: b"balance-1".to_vec(),
        instrument_symbol: instrument("BTCUSDT"),
        asset_symbol: asset("BTC"),
        asset_amount: fx(amount),
        is_locked: locked,
    }
}

fn btc_quote(price: f64) -> BidAsk {
    BidAsk {
        instrument: instrument("BTCUSDT"),
        datetime: 0,
        bid: fx(price),
        ask: fx(price),
    }
}

#[test]
fn add_balance_counts_unlocked_amount() {
    let mut wallet = new_wallet();
    let r = wallet.add_balance(btc_balance(2.0, false), &btc_quote(500.0));
    assert_eq!(r, Ok(()));
    assert_eq!(wallet.total_unlocked_balance, fx(1000.0));
}

#[test]
fn add_balance_rejects_wrong_instrument() {
    let mut wallet = new_wallet();
    let quote = BidAsk {
        instrument: instrument("ETHUSDT"),
        datetime: 0,
        bid: fx(500.0),
        ask: fx(500.0),
    };
    let r = wallet.add_balance(btc_balance(2.0, false), &quote);
    assert_eq!(r, Err(EngineError::BidAskInstrumentMismatch));
}

#[test]
fn update_balance_adjusts_by_delta() {
    let mut wallet = new_wallet();
    wallet
        .add_balance(btc_balance(2.0, false), &btc_quote(500.0))
        .unwrap();
    let mut updated = btc_balance(3.0, false);
    updated.id = b"balance-1".to_vec();
    let r = wallet.update_balance(updated);
    assert_eq!(r, Ok(()));
    assert_eq!(wallet.total_unlocked_balance, fx(1500.0));
}

#[test]
fn update_balance_unknown_instrument_is_reported() {
    let mut wallet = new_wallet();
    let r = wallet.update_balance(btc_balance(3.0, false));
    assert_eq!(r, Err(EngineError::BalanceNotFound));
}

#[test]
fn set_balance_lock_moves_amount_out_and_back() {
    let mut wallet = new_wallet();
    wallet
        .add_balance(btc_balance(2.0, false), &btc_quote(500.0))
        .unwrap();
    assert_eq!(wallet.total_unlocked_balance, fx(1000.0));

    wallet.set_balance_lock(b"balance-1", true).unwrap();
    assert_eq!(wallet.total_unlocked_balance, fx(0.0));

    // Idempotent: locking again changes nothing.
    wallet.set_balance_lock(b"balance-1", true).unwrap();
    assert_eq!(wallet.total_unlocked_balance, fx(0.0));

    wallet.set_balance_lock(b"balance-1", false).unwrap();
    assert_eq!(wallet.total_unlocked_balance, fx(1000.0));

    assert_eq!(
        wallet.set_balance_lock(b"missing", true),
        Err(EngineError::BalanceNotFound)
    );
}

#[test]
fn update_price_revalues_the_balance() {
    let mut wallet = new_wallet();
    wallet
        .add_balance(btc_balance(2.0, false), &btc_quote(500.0))
        .unwrap();
    wallet.update_price(&btc_quote(600.0));
    assert_eq!(wallet.total_unlocked_balance, fx(1200.0));
}

#[test]
fn reserved_total_equals_sum_of_instrument_reserves() {
    // The wallet's reserved total tracks the per-instrument reserves after
    // every mutation.
    let mut wallet = new_wallet();
    wallet
        .add_balance(btc_balance(2.0, false), &btc_quote(500.0))
        .unwrap();
    wallet.set_top_up_reserved(&instrument("ATOMUSDT"), &amounts(&[("BTC", 1.0)]));
    assert_eq!(wallet.total_top_up_reserved_balance, fx(500.0));
    wallet.set_top_up_reserved(&instrument("ETHUSDT"), &amounts(&[("BTC", 0.5)]));
    assert_eq!(wallet.total_top_up_reserved_balance, fx(750.0));
    // Updating an instrument replaces its reserve instead of adding to it.
    wallet.set_top_up_reserved(&instrument("ATOMUSDT"), &amounts(&[("BTC", 0.25)]));
    assert_eq!(wallet.total_top_up_reserved_balance, fx(375.0));
    // An asset without a stored price contributes nothing.
    wallet.set_top_up_reserved(&instrument("XRPUSDT"), &amounts(&[("DOGE", 9.0)]));
    assert_eq!(wallet.total_top_up_reserved_balance, fx(375.0));
}

#[test]
fn update_loss_shifts_prev_loss_percent() {
    // After update_loss the new previous loss percent is exactly the loss
    // percent from before the call.
    let mut wallet = new_wallet();
    wallet
        .add_balance(btc_balance(2.0, false), &btc_quote(500.0))
        .unwrap();
    wallet.set_top_up_pnl(&instrument("ATOMUSDT"), fx(-150.0));
    wallet.update_loss();
    assert_eq!(wallet.prev_loss_percent, fx(0.0));
    assert_eq!(wallet.current_loss_percent, fx(15.0));

    wallet.set_top_up_pnl(&instrument("ATOMUSDT"), fx(-80.0));
    wallet.update_loss();
    assert_eq!(wallet.prev_loss_percent, fx(15.0));
    assert_eq!(wallet.current_loss_percent, fx(8.0));
}

#[test]
fn wallet_margin_call_is_edge_triggered() {
    let mut wallet = new_wallet();
    wallet
        .add_balance(btc_balance(2.0, false), &btc_quote(500.0))
        .unwrap();
    // Loss rises to 15%, crossing the 12% threshold from below: a call.
    wallet.set_top_up_pnl(&instrument("ATOMUSDT"), fx(-150.0));
    wallet.update_loss();
    assert!(wallet.is_margin_call());
    // Loss stays above the threshold: no new call.
    wallet.set_top_up_pnl(&instrument("ATOMUSDT"), fx(-160.0));
    wallet.update_loss();
    assert!(!wallet.is_margin_call());
    // Loss drops below and crosses again: a call again.
    wallet.set_top_up_pnl(&instrument("ATOMUSDT"), fx(-80.0));
    wallet.update_loss();
    assert!(!wallet.is_margin_call());
    wallet.set_top_up_pnl(&instrument("ATOMUSDT"), fx(-150.0));
    wallet.update_loss();
    assert!(wallet.is_margin_call());
}
