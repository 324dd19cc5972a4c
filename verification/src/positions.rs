//! The position state machine: pending, active, and closed positions,
//! their per-quote updates, and the close-reason rules.

use vstd::prelude::*;
use crate::calculations::calculate_total_amount;
use crate::calculations::round;
use crate::calculations::round_spec;
use crate::calculations::spec_total_amount;
use crate::collections::SymMap;
use crate::numeric::mul_div;
use crate::numeric::mul_div_spec;
use crate::numeric::percent_spec;
use crate::numeric::sat_add_spec;
use crate::numeric::sat_neg;
use crate::numeric::sat_neg_spec;
use crate::numeric::sat_sub;
use crate::numeric::sat_sub_spec;
use crate::numeric::HUNDRED_PERCENT;
use crate::numeric::SCALE;
use crate::orders::same_order;
use crate::orders::Order;
use crate::orders::OrderSide;
use crate::orders::StopLossConfig;
use crate::orders::TakeProfitConfig;
use crate::symbols::bytes_dup;
use crate::symbols::get_instrument_symbol;
use crate::symbols::AssetSymbol;
use crate::symbols::InstrumentSymbol;
use crate::symbols::PositionId;
use crate::symbols::SymbolKey;

verus! {

/// Relies on `uuid::Uuid::new_v4` and its `Display` form: a fresh random
/// version-4 UUID rendered in hyphenated ASCII, which is always 36 bytes.
/// Nothing more is assumed: the value is random.
#[verifier::external_body]
pub fn fresh_uuid_bytes() -> (r: Vec<u8>)
    ensures
        r@.len() == 36,
{
    uuid::Uuid::new_v4().to_string().into_bytes()
}

/// Why a position left the active state.
#[derive(Clone, Copy, PartialEq, Eq, Structural, Debug)]
pub enum ClosePositionReason {
    ClientCommand,
    StopOut,
    TakeProfit,
    StopLoss,
    AdminCommand,
}

/// Lifecycle stage of a position; closed positions report whether they were
/// ever activated.
#[derive(Clone, Copy, PartialEq, Eq, Structural, Debug)]
pub enum PositionStatus {
    Pending,
    Active,
    Filled,
    Canceled,
}

/// A top-of-book quote: best bid and ask for one instrument, with the time
/// it was observed. The engine's clock advances with these timestamps.
pub struct BidAsk {
    pub instrument: InstrumentSymbol,
    pub datetime: i64,
    pub bid: i64,
    pub ask: i64,
}

impl BidAsk {
    /// Validity: both sides of the book are positive prices.
    pub open spec fn wf(self) -> bool {
        self.bid > 0 && self.ask > 0
    }

    /// The instrument symbol for a pair, delegating to the single source of
    /// truth in the symbols module.
    pub fn generate_id(base_asset: &AssetSymbol, quote_asset: &AssetSymbol) -> (r:
        InstrumentSymbol)
        ensures
            r@ == base_asset@ + quote_asset@,
    {
        get_instrument_symbol(base_asset, quote_asset)
    }

    /// See [`crate::symbols::get_instrument_symbol`].
    pub fn get_instrument_symbol(asset: &AssetSymbol, base: &AssetSymbol) -> (r: InstrumentSymbol)
        ensures
            r@ == asset@ + base@,
    {
        get_instrument_symbol(asset, base)
    }

    /// The price at which an open position on `side` would close: the bid
    /// for a buy, the ask for a sell.
    pub open spec fn spec_close_price(self, side: OrderSide) -> i64 {
        match side {
            OrderSide::Buy => self.bid,
            OrderSide::Sell => self.ask,
        }
    }

    /// The price at which a position on `side` would open: the ask for a
    /// buy, the bid for a sell.
    pub open spec fn spec_open_price(self, side: OrderSide) -> i64 {
        match side {
            OrderSide::Buy => self.ask,
            OrderSide::Sell => self.bid,
        }
    }

    pub fn get_close_price(&self, side: &OrderSide) -> (r: i64)
        ensures
            r == self.spec_close_price(*side),
    {
        match side {
            OrderSide::Buy => self.bid,
            OrderSide::Sell => self.ask,
        }
    }

    pub fn get_open_price(&self, side: &OrderSide) -> (r: i64)
        ensures
            r == self.spec_open_price(*side),
    {
        match side {
            OrderSide::Buy => self.ask,
            OrderSide::Sell => self.bid,
        }
    }

    /// The value of `asset` read off this quote: the ask when selling the
    /// asset, the bid when buying. Defined only when the quote's instrument
    /// starts with the asset, which the caller must ensure.
    pub open spec fn spec_asset_price(self, side: OrderSide) -> i64 {
        match side {
            OrderSide::Sell => self.ask,
            OrderSide::Buy => self.bid,
        }
    }

    pub fn get_asset_price(&self, asset: &AssetSymbol, side: &OrderSide) -> (r: i64)
        requires
            asset@.is_prefix_of(self.instrument@),
        ensures
            r == self.spec_asset_price(*side),
    {
        match side {
            OrderSide::Sell => self.ask,
            OrderSide::Buy => self.bid,
        }
    }
}

/// Margin that an operator added to a running position.
pub struct ActiveTopUp {
    pub id: Vec<u8>,
    pub date: i64,
    pub price: i64,
    pub assets: SymMap<AssetSymbol, i64>,
}

impl ActiveTopUp {
    pub open spec fn wf(self) -> bool {
        self.assets.wf() && self.price > 0
    }
}

/// A top-up that the engine gave back after the price recovered.
pub struct CanceledTopUp {
    pub id: Vec<u8>,
    pub date: i64,
    pub price: i64,
    pub assets: SymMap<AssetSymbol, i64>,
}

/// `((current / activate) - 1) * volume`, signed for the side: profit is
/// positive when a buy rises or a sell falls.
pub open spec fn spec_position_pnl(cp: int, ap: int, volume: int, side: OrderSide) -> int
    recommends
        ap > 0,
{
    let base = mul_div_spec(sat_sub_spec(cp, ap), volume, ap);
    if side == OrderSide::Buy {
        base
    } else {
        sat_neg_spec(base)
    }
}

/// `(pnl + invest) / invest * 100`; zero when nothing is invested (the
/// position is then entirely loss and stop-out fires).
pub open spec fn spec_margin_total(invest: int, pnl: int) -> int {
    if invest > 0 {
        percent_spec(invest, sat_add_spec(pnl, invest))
    } else {
        0
    }
}

/// `max(0, 100% - margin_percent)`.
pub open spec fn spec_loss_from_margin(margin: int) -> int {
    let d = sat_sub_spec(HUNDRED_PERCENT as int, margin);
    if d < 0 {
        0
    } else {
        d
    }
}

/// The unrealized profit-and-loss of an order activated at `ap`, at current
/// price `cp` with the given asset prices.
pub open spec fn spec_pnl_value(o: Order, ap: int, cp: int, prices: Map<Seq<u8>, i64>) -> int {
    let invest = spec_total_amount(o.invest_assets.key_seq(), o.invest_assets@, prices);
    let vol = mul_div_spec(invest, o.leverage as int, SCALE as int);
    spec_position_pnl(cp, ap, vol, o.side)
}

/// The loss percent matching [`spec_pnl_value`].
pub open spec fn spec_loss_value(o: Order, ap: int, cp: int, prices: Map<Seq<u8>, i64>) -> int {
    let invest = spec_total_amount(o.invest_assets.key_seq(), o.invest_assets@, prices);
    spec_loss_from_margin(spec_margin_total(invest, spec_pnl_value(o, ap, cp, prices)))
}

/// The asset prices after a quote touches them: for each invested asset
/// whose pair with the base asset is the quote's instrument, the sell-side
/// asset price is written through.
pub open spec fn spec_refreshed_asset_prices(
    invest_keys: Seq<Seq<u8>>,
    base: Seq<u8>,
    q: BidAsk,
    prices: Map<Seq<u8>, i64>,
) -> Map<Seq<u8>, i64>
    decreases invest_keys.len(),
{
    if invest_keys.len() == 0 {
        prices
    } else {
        let m = spec_refreshed_asset_prices(invest_keys.drop_last(), base, q, prices);
        if invest_keys.last() + base == q.instrument@ {
            m.insert(invest_keys.last(), q.spec_asset_price(OrderSide::Sell))
        } else {
            m
        }
    }
}

/// Write the quote through into `prices` for every invested asset whose
/// pair with the base asset is the quote's instrument.
fn refresh_asset_prices(order: &Order, prices: &mut SymMap<AssetSymbol, i64>, q: &BidAsk)
    requires
        order.invest_assets.wf(),
        old(prices).wf(),
    ensures
        final(prices).wf(),
        final(prices)@ == spec_refreshed_asset_prices(
            order.invest_assets.key_seq(),
            order.base_asset@,
            *q,
            old(prices)@,
        ),
        forall|k: Seq<u8>|
            old(prices)@.contains_key(k) ==> final(prices)@.contains_key(k),
{
    let n = order.invest_assets.len();
    let mut i: usize = 0;
    proof {
        assert(order.invest_assets.key_seq().take(0) =~= Seq::<Seq<u8>>::empty());
    }
    while i < n
        invariant
            order.invest_assets.wf(),
            prices.wf(),
            i <= n,
            n == order.invest_assets.spec_len(),
            prices@ == spec_refreshed_asset_prices(
                order.invest_assets.key_seq().take(i as int),
                order.base_asset@,
                *q,
                old(prices)@,
            ),
            forall|k: Seq<u8>|
                old(prices)@.contains_key(k) ==> prices@.contains_key(k),
        decreases n - i,
    {
        let asset = order.invest_assets.key_at(i);
        let id = get_instrument_symbol(asset, &order.base_asset);
        proof {
            let t = order.invest_assets.key_seq().take(i + 1);
            assert(t.drop_last() =~= order.invest_assets.key_seq().take(i as int));
            assert(t.last() == order.invest_assets.key_seq()[i as int]);
        }
        if id.key_eq(&q.instrument) {
            proof {
                assert((asset@ + order.base_asset@).subrange(0, asset@.len() as int)
                    =~= asset@);
                assert(asset@.is_prefix_of(q.instrument@));
            }
            let price = q.get_asset_price(asset, &OrderSide::Sell);
            prices.insert(asset.key_dup(), price);
        }
        i = i + 1;
    }
    proof {
        assert(order.invest_assets.key_seq().take(n as int)
            =~= order.invest_assets.key_seq());
    }
}

/// `((cp / ap) - 1) * volume`, signed for the side.
fn position_pnl(cp: i64, ap: i64, volume: i64, side: &OrderSide) -> (r: i64)
    requires
        ap > 0,
    ensures
        r == spec_position_pnl(cp as int, ap as int, volume as int, *side),
{
    let diff = sat_sub(cp, ap);
    let base = mul_div(diff, volume, ap);
    match side {
        OrderSide::Buy => base,
        OrderSide::Sell => sat_neg(base),
    }
}

/// Margin percent, total in the invested amount (zero when nothing is
/// invested).
fn margin_total(invest: i64, pnl: i64) -> (r: i64)
    ensures
        r == spec_margin_total(invest as int, pnl as int),
{
    if invest > 0 {
        crate::calculations::calculate_margin_percent(invest, pnl)
    } else {
        0
    }
}

fn loss_from_margin(margin: i64) -> (r: i64)
    ensures
        r == spec_loss_from_margin(margin as int),
{
    let d = sat_sub(HUNDRED_PERCENT, margin);
    if d < 0 {
        0
    } else {
        d
    }
}

/// A limit position waiting for its desire price.
pub struct PendingPosition {
    pub id: PositionId,
    pub order: Order,
    pub open_price: i64,
    pub open_date: i64,
    pub open_asset_prices: SymMap<AssetSymbol, i64>,
    pub current_price: i64,
    pub current_asset_prices: SymMap<AssetSymbol, i64>,
    pub last_update_date: i64,
    pub total_invest_assets: SymMap<AssetSymbol, i64>,
}

/// A running position with live profit-and-loss.
pub struct ActivePosition {
    pub id: PositionId,
    pub order: Order,
    pub open_price: i64,
    pub open_date: i64,
    pub open_asset_prices: SymMap<AssetSymbol, i64>,
    pub activate_price: i64,
    pub activate_date: i64,
    pub activate_asset_prices: SymMap<AssetSymbol, i64>,
    pub current_price: i64,
    pub current_asset_prices: SymMap<AssetSymbol, i64>,
    pub last_update_date: i64,
    pub top_ups: Vec<ActiveTopUp>,
    pub current_pnl: i64,
    pub current_loss_percent: i64,
    pub prev_loss_percent: i64,
    pub top_up_locked: bool,
    pub total_invest_assets: SymMap<AssetSymbol, i64>,
    pub bonus_invest_assets: SymMap<AssetSymbol, i64>,
}

/// A finished position, kept one cycle for the close event.
pub struct ClosedPosition {
    pub id: PositionId,
    pub order: Order,
    pub open_price: i64,
    pub open_date: i64,
    pub open_asset_prices: SymMap<AssetSymbol, i64>,
    pub activate_price: Option<i64>,
    pub activate_date: Option<i64>,
    pub activate_asset_prices: SymMap<AssetSymbol, i64>,
    pub close_price: i64,
    pub close_date: i64,
    pub close_reason: ClosePositionReason,
    pub close_asset_prices: SymMap<AssetSymbol, i64>,
    pub pnl: Option<i64>,
    pub asset_pnls: SymMap<AssetSymbol, i64>,
}

/// Any position, tagged by lifecycle stage.
pub enum Position {
    Active(ActivePosition),
    Closed(ClosedPosition),
    Pending(PendingPosition),
}

impl PendingPosition {
    /// Validity: a well-formed order with a desire price, covered asset
    /// prices, and a positive current price.
    pub open spec fn wf(self) -> bool {
        &&& self.order.wf()
        &&& self.order.desire_price is Some
        &&& self.open_asset_prices.wf()
        &&& self.current_asset_prices.wf()
        &&& self.total_invest_assets.wf()
        &&& self.current_price > 0
        &&& forall|k: Seq<u8>|
            self.order.invest_assets@.contains_key(k)
                ==> self.current_asset_prices@.contains_key(k)
    }

    /// The desire-price condition: a sell activates at or above it, a buy
    /// at or below it.
    pub open spec fn spec_price_reached(self) -> bool
        recommends
            self.order.desire_price is Some,
    {
        let dp = self.order.desire_price->0;
        (self.order.side == OrderSide::Sell && self.current_price >= dp) || (self.order.side
            == OrderSide::Buy && self.current_price <= dp)
    }

    pub fn is_price_reached(&self) -> (r: bool)
        requires
            self.wf(),
        ensures
            r == self.spec_price_reached(),
    {
        let dp = match self.order.desire_price {
            Some(dp) => dp,
            None => 0,  // unreachable: a pending position always has a desire price
        };
        match self.order.side {
            OrderSide::Sell => self.current_price >= dp,
            OrderSide::Buy => self.current_price <= dp,
        }
    }

    /// Whether the position may activate now. The invested assets are
    /// reserved when the order is placed, so this is the price condition.
    pub fn can_activate(&self) -> (r: bool)
        requires
            self.wf(),
        ensures
            r == self.spec_price_reached(),
    {
        self.is_price_reached()
    }

    /// What one quote does to a pending position: refresh the traded
    /// instrument's open price and the invested assets' prices, and advance
    /// the clock.
    pub open spec fn spec_updated(self, n: PendingPosition, q: BidAsk) -> bool {
        &&& n.current_price == (if q.instrument@ == self.order.instrument@ {
            q.spec_open_price(self.order.side)
        } else {
            self.current_price
        })
        &&& n.current_asset_prices@ == spec_refreshed_asset_prices(
            self.order.invest_assets.key_seq(),
            self.order.base_asset@,
            q,
            self.current_asset_prices@,
        )
        &&& n.last_update_date == q.datetime
        &&& n.id == self.id
        &&& n.order == self.order
        &&& n.open_price == self.open_price
        &&& n.open_date == self.open_date
        &&& n.open_asset_prices == self.open_asset_prices
        &&& n.total_invest_assets == self.total_invest_assets
    }

    pub fn update(&mut self, bidask: &BidAsk)
        requires
            old(self).wf(),
            bidask.wf(),
        ensures
            final(self).wf(),
            old(self).spec_updated(*final(self), *bidask),
    {
        if self.order.instrument.key_eq(&bidask.instrument) {
            self.current_price = bidask.get_open_price(&self.order.side);
        }
        refresh_asset_prices(&self.order, &mut self.current_asset_prices, bidask);
        self.last_update_date = bidask.datetime;
    }

    /// Activate: snapshot the current price and asset prices; the open
    /// metadata carries over untouched.
    pub open spec fn spec_activated(self, a: ActivePosition) -> bool {
        &&& a.id == self.id
        &&& a.order == self.order
        &&& a.open_price == self.open_price
        &&& a.open_date == self.open_date
        &&& a.open_asset_prices == self.open_asset_prices
        &&& a.activate_price == self.current_price
        &&& a.activate_date == self.last_update_date
        &&& a.activate_asset_prices@ == self.current_asset_prices@
        &&& a.current_price == self.current_price
        &&& a.current_asset_prices == self.current_asset_prices
        &&& a.last_update_date == self.last_update_date
        &&& a.top_ups@.len() == 0
        &&& a.current_pnl == 0
        &&& a.current_loss_percent == 0
        &&& a.prev_loss_percent == 0
        &&& !a.top_up_locked
        &&& a.total_invest_assets@ == self.order.invest_assets@
    }

    pub fn into_active(self) -> (a: ActivePosition)
        requires
            self.wf(),
            self.spec_price_reached(),
        ensures
            a.wf(),
            self.spec_activated(a),
    {
        let activate_asset_prices = self.current_asset_prices.dup();
        let total_invest_assets = self.order.invest_assets.dup();
        ActivePosition {
            id: self.id,
            open_price: self.open_price,
            open_date: self.open_date,
            open_asset_prices: self.open_asset_prices,
            activate_price: self.current_price,
            activate_date: self.last_update_date,
            activate_asset_prices,
            current_price: self.current_price,
            current_asset_prices: self.current_asset_prices,
            last_update_date: self.last_update_date,
            top_ups: Vec::new(),
            current_pnl: 0,
            current_loss_percent: 0,
            prev_loss_percent: 0,
            top_up_locked: false,
            total_invest_assets,
            order: self.order,
            bonus_invest_assets: SymMap::empty(),
        }
    }

    /// Activate if the desire price has been reached, else stay pending.
    pub fn try_activate(self) -> (r: Position)
        requires
            self.wf(),
        ensures
            r.wf(),
            self.spec_price_reached() ==> r is Active && self.spec_activated(r->Active_0),
            !self.spec_price_reached() ==> r == Position::Pending(self),
    {
        if self.can_activate() {
            return Position::Active(self.into_active());
        }
        Position::Pending(self)
    }

    pub fn set_take_profit(&mut self, value: Option<TakeProfitConfig>)
        requires
            old(self).wf(),
        ensures
            final(self).wf(),
            final(self).order.take_profit == value,
            *final(self) == (PendingPosition {
                order: (Order { take_profit: value, ..old(self).order }),
                ..*old(self)
            }),
    {
        self.order.take_profit = value;
    }

    pub fn set_stop_loss(&mut self, value: Option<StopLossConfig>)
        requires
            old(self).wf(),
        ensures
            final(self).wf(),
            final(self).order.stop_loss == value,
            *final(self) == (PendingPosition {
                order: (Order { stop_loss: value, ..old(self).order }),
                ..*old(self)
            }),
    {
        self.order.stop_loss = value;
    }

    pub fn set_desire_price(&mut self, value: i64)
        requires
            old(self).wf(),
        ensures
            final(self).wf(),
            final(self).order.desire_price == Some(value),
            *final(self) == (PendingPosition {
                order: (Order { desire_price: Some(value), ..old(self).order }),
                ..*old(self)
            }),
    {
        self.order.desire_price = Some(value);
    }

    /// Close a never-activated position: no profit or loss to realize.
    pub fn close(self, reason: ClosePositionReason) -> (c: ClosedPosition)
        requires
            self.wf(),
        ensures
            c.wf(),
            c.id == self.id,
            c.order == self.order,
            c.pnl is None,
            c.asset_pnls.spec_len() == 0,
            c.activate_price is None,
            c.activate_date is None,
            c.close_price == self.current_price,
            c.close_date == self.last_update_date,
            c.close_reason == reason,
            c.close_asset_prices == self.current_asset_prices,
            c.open_price == self.open_price,
            c.open_date == self.open_date,
            c.open_asset_prices == self.open_asset_prices,
    {
        ClosedPosition {
            pnl: None,
            asset_pnls: SymMap::empty(),
            open_price: self.open_price,
            open_date: self.open_date,
            open_asset_prices: self.open_asset_prices,
            activate_date: None,
            activate_price: None,
            activate_asset_prices: SymMap::empty(),
            close_date: self.last_update_date,
            close_price: self.current_price,
            close_reason: reason,
            close_asset_prices: self.current_asset_prices,
            order: self.order,
            id: self.id,
        }
    }
}


impl ActivePosition {
    /// Validity: well-formed order and maps, positive activation and
    /// current prices, covered invested assets, well-formed top-ups.
    pub open spec fn wf(self) -> bool {
        &&& self.order.wf()
        &&& self.open_asset_prices.wf()
        &&& self.activate_asset_prices.wf()
        &&& self.current_asset_prices.wf()
        &&& self.total_invest_assets.wf()
        &&& self.bonus_invest_assets.wf()
        &&& self.activate_price > 0
        &&& self.current_price > 0
        &&& forall|k: Seq<u8>|
            self.order.invest_assets@.contains_key(k)
                ==> self.current_asset_prices@.contains_key(k)
        &&& forall|i: int| 0 <= i < self.top_ups@.len() ==> (#[trigger] self.top_ups@[i]).wf()
    }

    /// The invested amount valued at the current asset prices.
    pub open spec fn spec_invest_cur(self) -> int {
        spec_total_amount(
            self.order.invest_assets.key_seq(),
            self.order.invest_assets@,
            self.current_asset_prices@,
        )
    }

    /// The unrealized profit-and-loss at the current prices.
    pub open spec fn spec_pnl_cur(self) -> int {
        spec_pnl_value(
            self.order,
            self.activate_price as int,
            self.current_price as int,
            self.current_asset_prices@,
        )
    }

    /// Margin percent at the current prices.
    pub open spec fn spec_margin_cur(self) -> int {
        spec_margin_total(self.spec_invest_cur(), self.spec_pnl_cur())
    }

    /// Stop-out: the loss has eaten at least `stop_out_percent` of margin.
    pub open spec fn spec_is_stop_out(self) -> bool {
        sat_sub_spec(HUNDRED_PERCENT as int, self.spec_margin_cur())
            >= self.order.stop_out_percent
    }

    /// Position-level margin call, re-evaluated on every update.
    pub open spec fn spec_is_margin_call(self) -> bool {
        sat_sub_spec(HUNDRED_PERCENT as int, self.spec_margin_cur())
            >= self.order.margin_call_percent
    }

    pub open spec fn spec_is_take_profit(self) -> bool {
        match self.order.take_profit {
            Some(c) => c.spec_is_triggered(
                self.spec_pnl_cur(),
                self.current_price as int,
                self.order.side,
            ),
            None => false,
        }
    }

    pub open spec fn spec_is_stop_loss(self) -> bool {
        match self.order.stop_loss {
            Some(c) => c.spec_is_triggered(
                self.spec_pnl_cur(),
                self.current_price as int,
                self.order.side,
            ),
            None => false,
        }
    }

    /// First matching close reason: stop-out, then stop-loss, then
    /// take-profit.
    pub open spec fn spec_close_reason(self) -> Option<ClosePositionReason> {
        if self.spec_is_stop_out() {
            Some(ClosePositionReason::StopOut)
        } else if self.spec_is_stop_loss() {
            Some(ClosePositionReason::StopLoss)
        } else if self.spec_is_take_profit() {
            Some(ClosePositionReason::TakeProfit)
        } else {
            None
        }
    }

    /// The position asks for a top-up when top-ups are enabled, no top-up
    /// request is outstanding, and the loss has entered the configured band.
    pub open spec fn spec_is_top_up(self) -> bool {
        &&& self.order.top_up_enabled
        &&& !self.top_up_locked
        &&& self.current_loss_percent >= self.order.top_up_percent
    }

    /// What one quote does to an active position: refresh the traded
    /// instrument's close price and the invested assets' prices, advance the
    /// clock, then recompute profit-and-loss and shift the loss percents.
    pub open spec fn spec_updated(self, n: ActivePosition, q: BidAsk) -> bool {
        &&& n.current_price == (if q.instrument@ == self.order.instrument@ {
            q.spec_close_price(self.order.side)
        } else {
            self.current_price
        })
        &&& n.current_asset_prices@ == spec_refreshed_asset_prices(
            self.order.invest_assets.key_seq(),
            self.order.base_asset@,
            q,
            self.current_asset_prices@,
        )
        &&& n.last_update_date == q.datetime
        &&& n.current_pnl == spec_pnl_value(
            self.order,
            self.activate_price as int,
            n.current_price as int,
            n.current_asset_prices@,
        )
        &&& n.prev_loss_percent == self.current_loss_percent
        &&& n.current_loss_percent == spec_loss_value(
            self.order,
            self.activate_price as int,
            n.current_price as int,
            n.current_asset_prices@,
        )
        &&& n.id == self.id
        &&& n.order == self.order
        &&& n.open_price == self.open_price
        &&& n.open_date == self.open_date
        &&& n.open_asset_prices == self.open_asset_prices
        &&& n.activate_price == self.activate_price
        &&& n.activate_date == self.activate_date
        &&& n.activate_asset_prices == self.activate_asset_prices
        &&& n.top_ups == self.top_ups
        &&& n.top_up_locked == self.top_up_locked
        &&& n.total_invest_assets == self.total_invest_assets
        &&& n.bonus_invest_assets == self.bonus_invest_assets
    }

    pub fn update(&mut self, bidask: &BidAsk)
        requires
            old(self).wf(),
            bidask.wf(),
        ensures
            final(self).wf(),
            old(self).spec_updated(*final(self), *bidask),
    {
        if self.order.instrument.key_eq(&bidask.instrument) {
            self.current_price = bidask.get_close_price(&self.order.side);
        }
        refresh_asset_prices(&self.order, &mut self.current_asset_prices, bidask);
        self.last_update_date = bidask.datetime;
        let invest = self.order.calculate_invest_amount(&self.current_asset_prices);
        let volume = self.order.calculate_volume(invest);
        let pnl = position_pnl(self.current_price, self.activate_price, volume, &self.order.side);
        self.current_pnl = pnl;
        self.prev_loss_percent = self.current_loss_percent;
        let margin = margin_total(invest, pnl);
        self.current_loss_percent = loss_from_margin(margin);
    }

    pub fn set_take_profit(&mut self, value: Option<TakeProfitConfig>)
        requires
            old(self).wf(),
        ensures
            final(self).wf(),
            final(self).order.take_profit == value,
            *final(self) == (ActivePosition {
                order: (Order { take_profit: value, ..old(self).order }),
                ..*old(self)
            }),
    {
        self.order.take_profit = value;
    }

    pub fn set_stop_loss(&mut self, value: Option<StopLossConfig>)
        requires
            old(self).wf(),
        ensures
            final(self).wf(),
            final(self).order.stop_loss == value,
            *final(self) == (ActivePosition {
                order: (Order { stop_loss: value, ..old(self).order }),
                ..*old(self)
            }),
    {
        self.order.stop_loss = value;
    }

    pub fn is_top_up(&self) -> (r: bool)
        ensures
            r == self.spec_is_top_up(),
    {
        self.order.top_up_enabled && !self.top_up_locked && self.current_loss_percent
            >= self.order.top_up_percent
    }

    /// Record that a top-up request went out; [`Self::spec_is_top_up`] then
    /// stays false until the top-up is applied or canceled.
    pub fn lock_top_up(&mut self)
        requires
            old(self).wf(),
        ensures
            final(self).wf(),
            *final(self) == (ActivePosition { top_up_locked: true, ..*old(self) }),
    {
        self.top_up_locked = true;
    }

    /// Apply an approved top-up: remember it and fold its amounts into the
    /// total invested assets; the position may ask for top-ups again.
    pub fn add_top_up(&mut self, top_up: ActiveTopUp)
        requires
            old(self).wf(),
            top_up.wf(),
        ensures
            final(self).wf(),
            final(self).top_ups@ == old(self).top_ups@.push(top_up),
            final(self).total_invest_assets@ == crate::assets::spec_merge_amounts(
                old(self).total_invest_assets@,
                top_up.assets.key_seq(),
                top_up.assets@,
            ),
            final(self).total_invest_assets.key_seq() == crate::assets::spec_merge_keys(
                old(self).total_invest_assets.key_seq(),
                top_up.assets.key_seq(),
            ),
            !final(self).top_up_locked,
            *final(self) == (ActivePosition {
                top_ups: final(self).top_ups,
                total_invest_assets: final(self).total_invest_assets,
                top_up_locked: false,
                ..*old(self)
            }),
    {
        crate::assets::merge_amounts(&mut self.total_invest_assets, &top_up.assets);
        self.top_ups.push(top_up);
        self.top_up_locked = false;
    }

    /// A recorded top-up may be handed back once it has aged past `delay`
    /// and the price has moved favorably by at least `pct` from the price
    /// it was taken at.
    pub open spec fn spec_cancelable(
        t: ActiveTopUp,
        cp: int,
        side: OrderSide,
        now: int,
        pct: int,
        delay: int,
    ) -> bool
        recommends
            t.price > 0,
    {
        &&& sat_sub_spec(now, t.date as int) >= delay
        &&& (match side {
            OrderSide::Buy => percent_spec(t.price as int, sat_sub_spec(cp, t.price as int)),
            OrderSide::Sell => percent_spec(t.price as int, sat_sub_spec(t.price as int, cp)),
        }) >= pct
    }

    /// The top-ups that survive a cancellation sweep, in order.
    pub open spec fn spec_kept_tops(
        tops: Seq<ActiveTopUp>,
        cp: int,
        side: OrderSide,
        now: int,
        pct: int,
        delay: int,
    ) -> Seq<ActiveTopUp>
        decreases tops.len(),
    {
        if tops.len() == 0 {
            Seq::empty()
        } else {
            let prev = Self::spec_kept_tops(tops.drop_last(), cp, side, now, pct, delay);
            if Self::spec_cancelable(tops.last(), cp, side, now, pct, delay) {
                prev
            } else {
                prev.push(tops.last())
            }
        }
    }

    /// The top-ups canceled by a sweep, in order.
    pub open spec fn spec_canceled_tops(
        tops: Seq<ActiveTopUp>,
        cp: int,
        side: OrderSide,
        now: int,
        pct: int,
        delay: int,
    ) -> Seq<ActiveTopUp>
        decreases tops.len(),
    {
        if tops.len() == 0 {
            Seq::empty()
        } else {
            let prev = Self::spec_canceled_tops(tops.drop_last(), cp, side, now, pct, delay);
            if Self::spec_cancelable(tops.last(), cp, side, now, pct, delay) {
                prev.push(tops.last())
            } else {
                prev
            }
        }
    }

    /// The total invested assets after deducting every canceled top-up.
    pub open spec fn spec_total_after_cancels(
        total: Map<Seq<u8>, i64>,
        tops: Seq<ActiveTopUp>,
        cp: int,
        side: OrderSide,
        now: int,
        pct: int,
        delay: int,
    ) -> Map<Seq<u8>, i64>
        decreases tops.len(),
    {
        if tops.len() == 0 {
            total
        } else {
            let prev = Self::spec_total_after_cancels(
                total,
                tops.drop_last(),
                cp,
                side,
                now,
                pct,
                delay,
            );
            if Self::spec_cancelable(tops.last(), cp, side, now, pct, delay) {
                crate::assets::spec_sub_amounts(
                    prev,
                    tops.last().assets.key_seq(),
                    tops.last().assets@,
                )
            } else {
                prev
            }
        }
    }

    /// Everything but the top-ups and the total invested assets is equal.
    pub open spec fn same_except_top_ups(self, n: ActivePosition) -> bool {
        &&& n.id == self.id
        &&& n.order == self.order
        &&& n.open_price == self.open_price
        &&& n.open_date == self.open_date
        &&& n.open_asset_prices == self.open_asset_prices
        &&& n.activate_price == self.activate_price
        &&& n.activate_date == self.activate_date
        &&& n.activate_asset_prices == self.activate_asset_prices
        &&& n.current_price == self.current_price
        &&& n.current_asset_prices == self.current_asset_prices
        &&& n.last_update_date == self.last_update_date
        &&& n.current_pnl == self.current_pnl
        &&& n.current_loss_percent == self.current_loss_percent
        &&& n.prev_loss_percent == self.prev_loss_percent
        &&& n.top_up_locked == self.top_up_locked
        &&& n.bonus_invest_assets == self.bonus_invest_assets
    }

    /// Sweep the recorded top-ups: cancel every one that has aged past the
    /// delay while the price reversed favorably past the threshold, deduct
    /// its amounts, and hand the canceled ones back.
    pub fn try_cancel_top_ups(
        &mut self,
        cancel_top_up_price_change_percent: i64,
        cancel_top_up_delay: i64,
    ) -> (r: Vec<CanceledTopUp>)
        requires
            old(self).wf(),
        ensures
            final(self).wf(),
            old(self).same_except_top_ups(*final(self)),
            final(self).top_ups@ == Self::spec_kept_tops(
                old(self).top_ups@,
                old(self).current_price as int,
                old(self).order.side,
                old(self).last_update_date as int,
                cancel_top_up_price_change_percent as int,
                cancel_top_up_delay as int,
            ),
            final(self).total_invest_assets@ == Self::spec_total_after_cancels(
                old(self).total_invest_assets@,
                old(self).top_ups@,
                old(self).current_price as int,
                old(self).order.side,
                old(self).last_update_date as int,
                cancel_top_up_price_change_percent as int,
                cancel_top_up_delay as int,
            ),
            ({
                let canceled = Self::spec_canceled_tops(
                    old(self).top_ups@,
                    old(self).current_price as int,
                    old(self).order.side,
                    old(self).last_update_date as int,
                    cancel_top_up_price_change_percent as int,
                    cancel_top_up_delay as int,
                );
                &&& r@.len() == canceled.len()
                &&& forall|j: int|
                    0 <= j < r@.len() ==> (#[trigger] r@[j]).id == canceled[j].id
                        && r@[j].date == canceled[j].date && r@[j].price == canceled[j].price
                        && r@[j].assets == canceled[j].assets
            }),
    {
        let ghost cp = old(self).current_price as int;
        let ghost side = old(self).order.side;
        let ghost now = old(self).last_update_date as int;
        let ghost pct = cancel_top_up_price_change_percent as int;
        let ghost delay = cancel_top_up_delay as int;
        let mut kept: Vec<ActiveTopUp> = Vec::new();
        let mut canceled: Vec<CanceledTopUp> = Vec::new();
        let mut i: usize = 0;
        let initial_count = self.top_ups.len();
        let ghost n = initial_count as int;
        proof {
            assert(old(self).top_ups@.take(0) =~= Seq::<ActiveTopUp>::empty());
        }
        while self.top_ups.len() > 0
            invariant
                cp == old(self).current_price as int,
                side == old(self).order.side,
                now == old(self).last_update_date as int,
                pct == cancel_top_up_price_change_percent as int,
                delay == cancel_top_up_delay as int,
                n == initial_count as int,
                i as int + self.top_ups@.len() == n,
                n == old(self).top_ups@.len(),
                forall|j: int|
                    0 <= j < self.top_ups@.len() ==> #[trigger] self.top_ups@[j]
                        == old(self).top_ups@[i + j],
                old(self).wf(),
                old(self).same_except_top_ups(*self),
                self.total_invest_assets.wf(),
                forall|j: int| 0 <= j < kept@.len() ==> (#[trigger] kept@[j]).wf(),
                kept@ == Self::spec_kept_tops(
                    old(self).top_ups@.take(i as int),
                    cp,
                    side,
                    now,
                    pct,
                    delay,
                ),
                self.total_invest_assets@ == Self::spec_total_after_cancels(
                    old(self).total_invest_assets@,
                    old(self).top_ups@.take(i as int),
                    cp,
                    side,
                    now,
                    pct,
                    delay,
                ),
                ({
                    let c = Self::spec_canceled_tops(
                        old(self).top_ups@.take(i as int),
                        cp,
                        side,
                        now,
                        pct,
                        delay,
                    );
                    &&& canceled@.len() == c.len()
                    &&& forall|j: int|
                        0 <= j < canceled@.len() ==> (#[trigger] canceled@[j]).id == c[j].id
                            && canceled@[j].date == c[j].date && canceled@[j].price == c[j].price
                            && canceled@[j].assets == c[j].assets
                }),
            decreases self.top_ups@.len(),
        {
            proof {
                assert(self.top_ups@[0] == old(self).top_ups@[i as int]);
                assert((old(self).top_ups@[i as int]).wf());
            }
            let t = self.top_ups.remove(0);
            proof {
                let tk = old(self).top_ups@.take(i as int + 1);
                assert(tk.drop_last() =~= old(self).top_ups@.take(i as int));
                assert(tk.last() == old(self).top_ups@[i as int]);
            }
            let aged = sat_sub(self.last_update_date, t.date) >= cancel_top_up_delay;
            let moved = match self.order.side {
                OrderSide::Buy => crate::calculations::calculate_percent(
                    t.price,
                    sat_sub(self.current_price, t.price),
                ),
                OrderSide::Sell => crate::calculations::calculate_percent(
                    t.price,
                    sat_sub(t.price, self.current_price),
                ),
            };
            let is_cancel = aged && moved >= cancel_top_up_price_change_percent;
            proof {
                let told = old(self).top_ups@[i as int];
                assert(t == told);
                assert(aged == (crate::numeric::sat_sub_spec(now, told.date as int) >= delay));
                assert(moved as int == (match side {
                    OrderSide::Buy => percent_spec(
                        told.price as int,
                        crate::numeric::sat_sub_spec(cp, told.price as int),
                    ),
                    OrderSide::Sell => percent_spec(
                        told.price as int,
                        crate::numeric::sat_sub_spec(told.price as int, cp),
                    ),
                }));
                assert(is_cancel == Self::spec_cancelable(told, cp, side, now, pct, delay));
            }
            if is_cancel {
                crate::assets::sub_amounts(&mut self.total_invest_assets, &t.assets);
                canceled.push(
                    CanceledTopUp { id: t.id, date: t.date, price: t.price, assets: t.assets },
                );
            } else {
                kept.push(t);
            }
            i = i + 1;
        }
        proof {
            assert(old(self).top_ups@.take(i as int) =~= old(self).top_ups@);
        }
        self.top_ups = kept;
        canceled
    }

    fn is_stop_out(&self) -> (r: bool)
        requires
            self.wf(),
        ensures
            r == self.spec_is_stop_out(),
    {
        let invest = self.order.calculate_invest_amount(&self.current_asset_prices);
        let pnl = position_pnl(
            self.current_price,
            self.activate_price,
            self.order.calculate_volume(invest),
            &self.order.side,
        );
        let margin = margin_total(invest, pnl);
        sat_sub(HUNDRED_PERCENT, margin) >= self.order.stop_out_percent
    }

    fn is_stop_loss(&self) -> (r: bool)
        requires
            self.wf(),
        ensures
            r == self.spec_is_stop_loss(),
    {
        match &self.order.stop_loss {
            Some(config) => {
                let invest = self.order.calculate_invest_amount(&self.current_asset_prices);
                let pnl = position_pnl(
                    self.current_price,
                    self.activate_price,
                    self.order.calculate_volume(invest),
                    &self.order.side,
                );
                let c = *config;
                c.is_triggered(pnl, self.current_price, &self.order.side)
            },
            None => false,
        }
    }

    fn is_take_profit(&self) -> (r: bool)
        requires
            self.wf(),
        ensures
            r == self.spec_is_take_profit(),
    {
        match &self.order.take_profit {
            Some(config) => {
                let invest = self.order.calculate_invest_amount(&self.current_asset_prices);
                let pnl = position_pnl(
                    self.current_price,
                    self.activate_price,
                    self.order.calculate_volume(invest),
                    &self.order.side,
                );
                let c = *config;
                c.is_triggered(pnl, self.current_price, &self.order.side)
            },
            None => false,
        }
    }

    /// Position-level margin call at the current prices.
    pub fn is_margin_call(&self) -> (r: bool)
        requires
            self.wf(),
        ensures
            r == self.spec_is_margin_call(),
    {
        let invest = self.order.calculate_invest_amount(&self.current_asset_prices);
        let pnl = position_pnl(
            self.current_price,
            self.activate_price,
            self.order.calculate_volume(invest),
            &self.order.side,
        );
        let margin = margin_total(invest, pnl);
        sat_sub(HUNDRED_PERCENT, margin) >= self.order.margin_call_percent
    }

    /// First matching close reason, in the fixed precedence order.
    pub fn determine_close_reason(&self) -> (r: Option<ClosePositionReason>)
        requires
            self.wf(),
        ensures
            r == self.spec_close_reason(),
    {
        if self.is_stop_out() {
            return Some(ClosePositionReason::StopOut);
        }
        if self.is_stop_loss() {
            return Some(ClosePositionReason::StopLoss);
        }
        if self.is_take_profit() {
            return Some(ClosePositionReason::TakeProfit);
        }
        None
    }

    /// The per-asset profit-and-loss at close, floored at losing the whole
    /// invested amount of that asset (the isolated-trade floor).
    pub open spec fn spec_asset_pnl(self, amount: i64) -> int {
        let vol = mul_div_spec(amount as int, self.order.leverage as int, SCALE as int);
        let p = spec_position_pnl(
            self.current_price as int,
            self.activate_price as int,
            vol,
            self.order.side,
        );
        let floor = sat_neg_spec(amount as int);
        if p < floor {
            floor
        } else {
            p
        }
    }

    /// The asset-pnl map as a mathematical value.
    pub open spec fn spec_asset_pnls_map(self) -> Map<Seq<u8>, i64> {
        Map::new(
            |k: Seq<u8>| self.order.invest_assets@.contains_key(k),
            |k: Seq<u8>| self.spec_asset_pnl(self.order.invest_assets@[k]) as i64,
        )
    }

    /// Per-asset profit-and-loss, one entry per invested asset, in order.
    pub fn calculate_asset_pnls(&self) -> (r: SymMap<AssetSymbol, i64>)
        requires
            self.wf(),
        ensures
            r.wf(),
            r.key_seq() == self.order.invest_assets.key_seq(),
            r@ =~= self.spec_asset_pnls_map(),
    {
        let n = self.order.invest_assets.len();
        let mut out: SymMap<AssetSymbol, i64> = SymMap::empty();
        let mut i: usize = 0;
        while i < n
            invariant
                self.wf(),
                i <= n,
                n == self.order.invest_assets.spec_len(),
                out.wf(),
                out.key_seq() =~= self.order.invest_assets.key_seq().take(i as int),
                forall|k: Seq<u8>|
                    out@.contains_key(k) ==> #[trigger] out@[k] == self.spec_asset_pnl(
                        self.order.invest_assets@[k],
                    ) as i64,
            decreases n - i,
        {
            let asset = self.order.invest_assets.key_at(i);
            let amount = *self.order.invest_assets.val_at(i);
            let vol = self.order.calculate_volume(amount);
            let p = position_pnl(self.current_price, self.activate_price, vol, &self.order.side);
            let floor = sat_neg(amount);
            let v = if p < floor {
                floor
            } else {
                p
            };
            proof {
                crate::collections::lemma_keyseq_dom(out);
                if out.key_seq().contains(asset.key()) {
                    let j = choose|j: int|
                        0 <= j < out.key_seq().len() && out.key_seq()[j] == asset.key();
                    assert(self.order.invest_assets.key_seq()[j] == asset.key());
                    assert(false);
                }
            }
            out.insert(asset.key_dup(), v);
            proof {
                assert(out.key_seq() =~= self.order.invest_assets.key_seq().take(i as int + 1));
            }
            i = i + 1;
        }
        proof {
            assert(out.key_seq() =~= self.order.invest_assets.key_seq());
            crate::collections::lemma_keyseq_dom(out);
            crate::collections::lemma_keyseq_dom(self.order.invest_assets);
            assert forall|k: Seq<u8>| out@.contains_key(k)
                == self.spec_asset_pnls_map().contains_key(k) by {
                assert(out@.contains_key(k) == out.key_seq().contains(k));
                assert(self.order.invest_assets@.contains_key(k)
                    == self.order.invest_assets.key_seq().contains(k));
            }
            assert forall|k: Seq<u8>| out@.contains_key(k)
                implies #[trigger] out@[k] == self.spec_asset_pnls_map()[k] by {}
            assert(out@ =~= self.spec_asset_pnls_map());
        }
        out
    }

    /// The scalar profit-and-loss a close realizes: the asset pnls valued
    /// at the current asset prices, optionally rounded to `accuracy`
    /// decimal digits.
    pub open spec fn spec_close_pnl(self, accuracy: Option<u32>) -> int {
        let t = spec_total_amount(
            self.order.invest_assets.key_seq(),
            self.spec_asset_pnls_map(),
            self.current_asset_prices@,
        );
        match accuracy {
            Some(k) => round_spec(t, k as nat),
            None => t,
        }
    }

    /// What closing this position produces: the realized per-asset and
    /// scalar profit-and-loss, the close stamp from the engine clock (the
    /// time of the last quote seen), and every carried field.
    pub open spec fn spec_closed_into(
        self,
        c: ClosedPosition,
        reason: ClosePositionReason,
        pnl_accuracy: Option<u32>,
    ) -> bool {
        &&& c.id == self.id
        &&& c.order == self.order
        &&& c.pnl == Some(self.spec_close_pnl(pnl_accuracy) as i64)
        &&& c.asset_pnls.key_seq() == self.order.invest_assets.key_seq()
        &&& c.asset_pnls@ == self.spec_asset_pnls_map()
        &&& c.activate_price == Some(self.activate_price)
        &&& c.activate_date == Some(self.activate_date)
        &&& c.activate_asset_prices == self.activate_asset_prices
        &&& c.close_price == self.current_price
        &&& c.close_date == self.last_update_date
        &&& c.close_reason == reason
        &&& c.close_asset_prices == self.current_asset_prices
        &&& c.open_price == self.open_price
        &&& c.open_date == self.open_date
        &&& c.open_asset_prices == self.open_asset_prices
    }

    /// Close the position: realize the per-asset and scalar
    /// profit-and-loss; the close is stamped with the engine clock (the
    /// time of the last quote seen).
    pub fn close(self, reason: ClosePositionReason, pnl_accuracy: Option<u32>) -> (c:
        ClosedPosition)
        requires
            self.wf(),
        ensures
            c.wf(),
            self.spec_closed_into(c, reason, pnl_accuracy),
            c.id == self.id,
            c.order == self.order,
            c.pnl == Some(self.spec_close_pnl(pnl_accuracy) as i64),
            c.asset_pnls.key_seq() == self.order.invest_assets.key_seq(),
            c.asset_pnls@ == self.spec_asset_pnls_map(),
            c.activate_price == Some(self.activate_price),
            c.activate_date == Some(self.activate_date),
            c.activate_asset_prices == self.activate_asset_prices,
            c.close_price == self.current_price,
            c.close_date == self.last_update_date,
            c.close_reason == reason,
            c.close_asset_prices == self.current_asset_prices,
            c.open_price == self.open_price,
            c.open_date == self.open_date,
            c.open_asset_prices == self.open_asset_prices,
    {
        let asset_pnls = self.calculate_asset_pnls();
        let total = calculate_total_amount(&asset_pnls, &self.current_asset_prices);
        let pnl = match pnl_accuracy {
            Some(k) => round(total, k),
            None => total,
        };
        ClosedPosition {
            pnl: Some(pnl),
            asset_pnls,
            open_price: self.open_price,
            open_date: self.open_date,
            open_asset_prices: self.open_asset_prices,
            activate_date: Some(self.activate_date),
            activate_price: Some(self.activate_price),
            activate_asset_prices: self.activate_asset_prices,
            close_date: self.last_update_date,
            close_price: self.current_price,
            close_reason: reason,
            close_asset_prices: self.current_asset_prices,
            order: self.order,
            id: self.id,
        }
    }

    /// Close if a close reason holds, else stay active.
    pub fn try_close(self) -> (r: Position)
        requires
            self.wf(),
        ensures
            r.wf(),
            self.spec_close_reason() is Some ==> r is Closed && self.spec_closed_into(
                r->Closed_0,
                self.spec_close_reason()->0,
                None,
            ),
            self.spec_close_reason() is None ==> r == Position::Active(self),
    {
        let reason = self.determine_close_reason();
        match reason {
            Some(reason) => Position::Closed(self.close(reason, None)),
            None => Position::Active(self),
        }
    }
}

impl ClosedPosition {
    /// Validity: a well-formed order and maps.
    pub open spec fn wf(self) -> bool {
        &&& self.order.wf()
        &&& self.open_asset_prices.wf()
        &&& self.activate_asset_prices.wf()
        &&& self.close_asset_prices.wf()
        &&& self.asset_pnls.wf()
    }

    /// Filled when the position was activated before closing, else
    /// canceled.
    pub fn get_status(&self) -> (r: PositionStatus)
        ensures
            r == (if self.activate_date is Some {
                PositionStatus::Filled
            } else {
                PositionStatus::Canceled
            }),
    {
        if self.activate_date.is_some() {
            PositionStatus::Filled
        } else {
            PositionStatus::Canceled
        }
    }
}

impl Position {
    /// A fresh random identifier for a new position.
    pub fn generate_id() -> (r: Vec<u8>)
        ensures
            r@.len() == 36,
    {
        fresh_uuid_bytes()
    }

    pub open spec fn wf(self) -> bool {
        match self {
            Position::Active(p) => p.wf(),
            Position::Closed(p) => p.wf(),
            Position::Pending(p) => p.wf(),
        }
    }

    /// The identifier shared by all three variants.
    pub open spec fn spec_id(self) -> PositionId {
        match self {
            Position::Active(p) => p.id,
            Position::Closed(p) => p.id,
            Position::Pending(p) => p.id,
        }
    }

    /// The order shared by all three variants.
    pub open spec fn spec_order(self) -> Order {
        match self {
            Position::Active(p) => p.order,
            Position::Closed(p) => p.order,
            Position::Pending(p) => p.order,
        }
    }

    pub fn get_id(&self) -> (r: &PositionId)
        ensures
            *r == self.spec_id(),
    {
        match self {
            Position::Active(p) => &p.id,
            Position::Closed(p) => &p.id,
            Position::Pending(p) => &p.id,
        }
    }

    pub fn get_order(&self) -> (r: &Order)
        ensures
            *r == self.spec_order(),
    {
        match self {
            Position::Active(p) => &p.order,
            Position::Closed(p) => &p.order,
            Position::Pending(p) => &p.order,
        }
    }

    pub fn get_open_asset_prices(&self) -> (r: &SymMap<AssetSymbol, i64>)
        ensures
            *r == (match *self {
                Position::Active(p) => p.open_asset_prices,
                Position::Closed(p) => p.open_asset_prices,
                Position::Pending(p) => p.open_asset_prices,
            }),
    {
        match self {
            Position::Active(p) => &p.open_asset_prices,
            Position::Closed(p) => &p.open_asset_prices,
            Position::Pending(p) => &p.open_asset_prices,
        }
    }

    pub fn get_open_date(&self) -> (r: i64)
        ensures
            r == (match *self {
                Position::Active(p) => p.open_date,
                Position::Closed(p) => p.open_date,
                Position::Pending(p) => p.open_date,
            }),
    {
        match self {
            Position::Active(p) => p.open_date,
            Position::Closed(p) => p.open_date,
            Position::Pending(p) => p.open_date,
        }
    }

    /// Every instrument this position is indexed under.
    pub fn get_instruments(&self) -> (r: Vec<InstrumentSymbol>)
        requires
            self.spec_order().invest_assets.wf(),
        ensures
            r@.map_values(|s: InstrumentSymbol| s@) == self.spec_order().spec_instruments(),
    {
        self.get_order().get_instruments()
    }

    pub fn get_status(&self) -> (r: PositionStatus)
        ensures
            r == (match *self {
                Position::Pending(_) => PositionStatus::Pending,
                Position::Active(_) => PositionStatus::Active,
                Position::Closed(p) => (if p.activate_date is Some {
                    PositionStatus::Filled
                } else {
                    PositionStatus::Canceled
                }),
            }),
    {
        match self {
            Position::Pending(_) => PositionStatus::Pending,
            Position::Active(_) => PositionStatus::Active,
            Position::Closed(p) => p.get_status(),
        }
    }
}


/// Content sameness of two top-ups.
pub open spec fn same_top_up(a: ActiveTopUp, b: ActiveTopUp) -> bool {
    &&& a.id@ == b.id@
    &&& a.date == b.date
    &&& a.price == b.price
    &&& a.assets@ == b.assets@
    &&& a.assets.key_seq() == b.assets.key_seq()
}

/// Content sameness of two pending positions.
pub open spec fn same_pending(a: PendingPosition, b: PendingPosition) -> bool {
    &&& a.id@ == b.id@
    &&& same_order(a.order, b.order)
    &&& a.open_price == b.open_price
    &&& a.open_date == b.open_date
    &&& a.open_asset_prices@ == b.open_asset_prices@
    &&& a.current_price == b.current_price
    &&& a.current_asset_prices@ == b.current_asset_prices@
    &&& a.last_update_date == b.last_update_date
    &&& a.total_invest_assets@ == b.total_invest_assets@
}

/// Content sameness of two active positions.
pub open spec fn same_active(a: ActivePosition, b: ActivePosition) -> bool {
    &&& a.id@ == b.id@
    &&& same_order(a.order, b.order)
    &&& a.open_price == b.open_price
    &&& a.open_date == b.open_date
    &&& a.open_asset_prices@ == b.open_asset_prices@
    &&& a.activate_price == b.activate_price
    &&& a.activate_date == b.activate_date
    &&& a.activate_asset_prices@ == b.activate_asset_prices@
    &&& a.current_price == b.current_price
    &&& a.current_asset_prices@ == b.current_asset_prices@
    &&& a.last_update_date == b.last_update_date
    &&& a.top_ups@.len() == b.top_ups@.len()
    &&& forall|i: int|
        0 <= i < a.top_ups@.len() ==> same_top_up(#[trigger] a.top_ups@[i], b.top_ups@[i])
    &&& a.current_pnl == b.current_pnl
    &&& a.current_loss_percent == b.current_loss_percent
    &&& a.prev_loss_percent == b.prev_loss_percent
    &&& a.top_up_locked == b.top_up_locked
    &&& a.total_invest_assets@ == b.total_invest_assets@
    &&& a.total_invest_assets.key_seq() == b.total_invest_assets.key_seq()
    &&& a.bonus_invest_assets@ == b.bonus_invest_assets@
}

impl ActiveTopUp {
    /// A fresh top-up with the same content.
    pub fn dup(&self) -> (r: ActiveTopUp)
        requires
            self.assets.wf(),
        ensures
            same_top_up(r, *self),
            r.wf() <==> self.wf(),
    {
        ActiveTopUp {
            id: bytes_dup(&self.id),
            date: self.date,
            price: self.price,
            assets: self.assets.dup(),
        }
    }
}

impl PendingPosition {
    /// A fresh pending position with the same content.
    pub fn dup(&self) -> (r: PendingPosition)
        requires
            self.wf(),
        ensures
            r.wf(),
            same_pending(r, *self),
    {
        PendingPosition {
            id: self.id.key_dup(),
            order: self.order.dup(),
            open_price: self.open_price,
            open_date: self.open_date,
            open_asset_prices: self.open_asset_prices.dup(),
            current_price: self.current_price,
            current_asset_prices: self.current_asset_prices.dup(),
            last_update_date: self.last_update_date,
            total_invest_assets: self.total_invest_assets.dup(),
        }
    }
}

impl ActivePosition {
    /// A fresh active position with the same content.
    pub fn dup(&self) -> (r: ActivePosition)
        requires
            self.wf(),
        ensures
            r.wf(),
            same_active(r, *self),
    {
        let n = self.top_ups.len();
        let mut top_ups: Vec<ActiveTopUp> = Vec::new();
        let mut i: usize = 0;
        while i < n
            invariant
                self.wf(),
                i <= n,
                n == self.top_ups@.len(),
                top_ups@.len() == i,
                forall|j: int|
                    0 <= j < i ==> same_top_up(#[trigger] top_ups@[j], self.top_ups@[j])
                        && top_ups@[j].wf(),
            decreases n - i,
        {
            proof {
                assert((#[trigger] self.top_ups@[i as int]).wf());
            }
            top_ups.push(self.top_ups[i].dup());
            i = i + 1;
        }
        ActivePosition {
            id: self.id.key_dup(),
            order: self.order.dup(),
            open_price: self.open_price,
            open_date: self.open_date,
            open_asset_prices: self.open_asset_prices.dup(),
            activate_price: self.activate_price,
            activate_date: self.activate_date,
            activate_asset_prices: self.activate_asset_prices.dup(),
            current_price: self.current_price,
            current_asset_prices: self.current_asset_prices.dup(),
            last_update_date: self.last_update_date,
            top_ups,
            current_pnl: self.current_pnl,
            current_loss_percent: self.current_loss_percent,
            prev_loss_percent: self.prev_loss_percent,
            top_up_locked: self.top_up_locked,
            total_invest_assets: self.total_invest_assets.dup(),
            bonus_invest_assets: self.bonus_invest_assets.dup(),
        }
    }
}


/// Content sameness of two quotes.
pub open spec fn same_bidask(a: BidAsk, b: BidAsk) -> bool {
    &&& a.instrument@ == b.instrument@
    &&& a.datetime == b.datetime
    &&& a.bid == b.bid
    &&& a.ask == b.ask
}

impl BidAsk {
    /// A fresh quote with the same content.
    pub fn dup(&self) -> (r: BidAsk)
        ensures
            same_bidask(r, *self),
            r.wf() <==> self.wf(),
    {
        BidAsk {
            instrument: self.instrument.key_dup(),
            datetime: self.datetime,
            bid: self.bid,
            ask: self.ask,
        }
    }
}

} // verus!
