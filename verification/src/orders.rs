//! Orders: the immutable trading intent behind every position.

use vstd::prelude::*;
use crate::calculations::calculate_total_amount;
use crate::calculations::spec_total_amount;
use crate::collections::SymMap;
use crate::errors::EngineError;
use crate::numeric::mul_div;
use crate::numeric::mul_div_spec;
use crate::numeric::SCALE;
use crate::positions::fresh_uuid_bytes;
use crate::positions::ActivePosition;
use crate::positions::PendingPosition;
use crate::positions::Position;
use crate::positions::BidAsk;
use crate::symbols::PositionId;
use crate::symbols::get_instrument_symbol;
use crate::symbols::AssetSymbol;
use crate::symbols::InstrumentSymbol;
use crate::symbols::SymbolKey;
use crate::symbols::WalletId;

verus! {

#[derive(Clone, Copy, PartialEq, Eq, Structural, Debug)]
pub enum OrderType {
    Market,
    Limit,
}

#[derive(Clone, Copy, PartialEq, Eq, Structural, Debug)]
pub enum OrderSide {
    Buy,
    Sell,
}

/// The unit a take-profit or stop-loss threshold is expressed in.
#[derive(Clone, Copy, PartialEq, Eq, Structural, Debug)]
pub enum AutoClosePositionUnit {
    AssetAmountUnit,
    PriceRateUnit,
}

/// Close the position once its profit reaches the threshold.
#[derive(Clone, Copy, PartialEq, Eq, Structural, Debug)]
pub struct TakeProfitConfig {
    pub value: i64,
    pub unit: AutoClosePositionUnit,
}

impl TakeProfitConfig {
    /// Triggered on profit at or past `value` (asset amount), or on the
    /// close price crossing `value` in the profitable direction (price rate).
    pub open spec fn spec_is_triggered(self, pnl: int, close_price: int, side: OrderSide) -> bool {
        match self.unit {
            AutoClosePositionUnit::AssetAmountUnit => pnl >= self.value,
            AutoClosePositionUnit::PriceRateUnit => match side {
                OrderSide::Buy => self.value <= close_price,
                OrderSide::Sell => self.value >= close_price,
            },
        }
    }

    pub fn is_triggered(&self, pnl: i64, close_price: i64, side: &OrderSide) -> (r: bool)
        ensures
            r == self.spec_is_triggered(pnl as int, close_price as int, *side),
    {
        match self.unit {
            AutoClosePositionUnit::AssetAmountUnit => pnl >= self.value,
            AutoClosePositionUnit::PriceRateUnit => match side {
                OrderSide::Buy => self.value <= close_price,
                OrderSide::Sell => self.value >= close_price,
            },
        }
    }
}

/// Close the position once its loss reaches the threshold.
#[derive(Clone, Copy, PartialEq, Eq, Structural, Debug)]
pub struct StopLossConfig {
    pub value: i64,
    pub unit: AutoClosePositionUnit,
}

impl StopLossConfig {
    /// Triggered on a loss whose magnitude reaches `value` (asset amount),
    /// or on the close price crossing `value` in the losing direction
    /// (price rate).
    pub open spec fn spec_is_triggered(self, pnl: int, close_price: int, side: OrderSide) -> bool {
        match self.unit {
            AutoClosePositionUnit::AssetAmountUnit => pnl < 0 && -pnl >= self.value,
            AutoClosePositionUnit::PriceRateUnit => match side {
                OrderSide::Buy => self.value >= close_price,
                OrderSide::Sell => self.value <= close_price,
            },
        }
    }

    pub fn is_triggered(&self, pnl: i64, close_price: i64, side: &OrderSide) -> (r: bool)
        ensures
            r == self.spec_is_triggered(pnl as int, close_price as int, *side),
    {
        match self.unit {
            AutoClosePositionUnit::AssetAmountUnit => {
                if pnl >= 0 {
                    false
                } else if pnl == i64::MIN {
                    true
                } else {
                    -pnl >= self.value
                }
            },
            AutoClosePositionUnit::PriceRateUnit => match side {
                OrderSide::Buy => self.value >= close_price,
                OrderSide::Sell => self.value <= close_price,
            },
        }
    }
}

/// Immutable trading intent: invested assets, leverage, side, and the
/// thresholds that govern the position opened from it.
pub struct Order {
    pub id: Vec<u8>,
    pub trader_id: Vec<u8>,
    pub wallet_id: WalletId,
    pub instrument: InstrumentSymbol,
    pub base_asset: AssetSymbol,
    pub invest_assets: SymMap<AssetSymbol, i64>,
    pub leverage: i64,
    pub created_date: i64,
    pub side: OrderSide,
    pub take_profit: Option<TakeProfitConfig>,
    pub stop_loss: Option<StopLossConfig>,
    pub stop_out_percent: i64,
    pub margin_call_percent: i64,
    pub top_up_enabled: bool,
    pub top_up_percent: i64,
    pub funding_fee_period: Option<i64>,
    pub desire_price: Option<i64>,
}

impl Order {
    /// Validity: a positive leverage and a well-formed invested-assets map.
    pub open spec fn wf(self) -> bool {
        &&& self.invest_assets.wf()
        &&& self.leverage > 0
    }

    /// Every instrument this order touches: the traded instrument first,
    /// then one instrument per invested asset paired with the base asset.
    pub open spec fn spec_instruments(self) -> Seq<Seq<u8>> {
        seq![self.instrument@] + self.invest_assets.key_seq().map_values(
            |k: Seq<u8>| k + self.base_asset@,
        )
    }

    /// The instruments of the invested assets, each paired with the base
    /// (estimation) asset.
    pub fn get_invest_instruments(&self) -> (r: Vec<InstrumentSymbol>)
        requires
            self.invest_assets.wf(),
        ensures
            r@.len() == self.invest_assets.key_seq().len(),
            forall|i: int|
                0 <= i < r@.len() ==> #[trigger] r@[i]@ == self.invest_assets.key_seq()[i]
                    + self.base_asset@,
    {
        let n = self.invest_assets.len();
        let mut out: Vec<InstrumentSymbol> = Vec::new();
        let mut i: usize = 0;
        while i < n
            invariant
                self.invest_assets.wf(),
                i <= n,
                n == self.invest_assets.spec_len(),
                out@.len() == i,
                forall|j: int|
                    0 <= j < i ==> #[trigger] out@[j]@ == self.invest_assets.key_seq()[j]
                        + self.base_asset@,
            decreases n - i,
        {
            let asset = self.invest_assets.key_at(i);
            out.push(get_instrument_symbol(asset, &self.base_asset));
            i = i + 1;
        }
        out
    }

    /// All instruments this order touches, in the order of
    /// [`Self::spec_instruments`].
    pub fn get_instruments(&self) -> (r: Vec<InstrumentSymbol>)
        requires
            self.invest_assets.wf(),
        ensures
            r@.map_values(|s: InstrumentSymbol| s@) == self.spec_instruments(),
            r@.len() == self.spec_instruments().len(),
    {
        let mut out: Vec<InstrumentSymbol> = Vec::new();
        out.push(self.instrument.key_dup());
        let n = self.invest_assets.len();
        let mut i: usize = 0;
        while i < n
            invariant
                self.invest_assets.wf(),
                i <= n,
                n == self.invest_assets.spec_len(),
                out@.len() == i + 1,
                out@[0]@ == self.instrument@,
                forall|j: int|
                    0 <= j < i ==> #[trigger] out@[j + 1]@ == self.invest_assets.key_seq()[j]
                        + self.base_asset@,
            decreases n - i,
        {
            let asset = self.invest_assets.key_at(i);
            out.push(get_instrument_symbol(asset, &self.base_asset));
            i = i + 1;
        }
        proof {
            assert forall|j: int| 0 <= j < out@.len() implies out@.map_values(
                |s: InstrumentSymbol| s@,
            )[j] == self.spec_instruments()[j] by {
                if j > 0 {
                    assert(out@[(j - 1) + 1]@ == self.invest_assets.key_seq()[j - 1]
                        + self.base_asset@);
                    assert(self.invest_assets.key_seq().map_values(
                        |k: Seq<u8>| k + self.base_asset@,
                    )[j - 1] == self.invest_assets.key_seq()[j - 1] + self.base_asset@);
                }
            }
            assert(out@.map_values(|s: InstrumentSymbol| s@) =~= self.spec_instruments());
        }
        out
    }

    /// Limit when a desire price is set, else market.
    pub fn get_type(&self) -> (r: OrderType)
        ensures
            r == (if self.desire_price is Some {
                OrderType::Limit
            } else {
                OrderType::Market
            }),
    {
        if self.desire_price.is_some() {
            OrderType::Limit
        } else {
            OrderType::Market
        }
    }

    /// A fresh random identifier for a new order.
    pub fn generate_id() -> (r: Vec<u8>)
        ensures
            r@.len() == 36,
    {
        fresh_uuid_bytes()
    }

    /// Ok exactly when every invested asset has a price in `asset_prices`.
    pub fn validate_prices(&self, asset_prices: &SymMap<AssetSymbol, i64>) -> (r: Result<
        (),
        EngineError,
    >)
        requires
            self.invest_assets.wf(),
            asset_prices.wf(),
        ensures
            r is Ok <==> (forall|k: Seq<u8>|
                self.invest_assets@.contains_key(k) ==> asset_prices@.contains_key(k)),
            r is Err ==> r->Err_0 == EngineError::PriceNotFound,
    {
        let n = self.invest_assets.len();
        let mut i: usize = 0;
        while i < n
            invariant
                self.invest_assets.wf(),
                asset_prices.wf(),
                i <= n,
                n == self.invest_assets.spec_len(),
                forall|j: int|
                    0 <= j < i ==> asset_prices@.contains_key(
                        #[trigger] self.invest_assets.key_seq()[j],
                    ),
            decreases n - i,
        {
            let asset = self.invest_assets.key_at(i);
            if !asset_prices.contains(asset) {
                return Err(EngineError::PriceNotFound);
            }
            i = i + 1;
        }
        proof {
            assert forall|k: Seq<u8>| self.invest_assets@.contains_key(k)
                implies asset_prices@.contains_key(k) by {
                self.invest_assets.lemma_present(k);
            }
        }
        Ok(())
    }

    /// `invest_amount * leverage`.
    pub fn calculate_volume(&self, invest_amount: i64) -> (r: i64)
        ensures
            r == mul_div_spec(invest_amount as int, self.leverage as int, SCALE as int),
    {
        mul_div(invest_amount, self.leverage, SCALE)
    }

    /// The invested amounts valued at `asset_prices`, in the base asset.
    pub fn calculate_invest_amount(&self, asset_prices: &SymMap<AssetSymbol, i64>) -> (r: i64)
        requires
            self.invest_assets.wf(),
            asset_prices.wf(),
            forall|k: Seq<u8>|
                self.invest_assets@.contains_key(k) ==> asset_prices@.contains_key(k),
        ensures
            r == spec_total_amount(
                self.invest_assets.key_seq(),
                self.invest_assets@,
                asset_prices@,
            ),
    {
        calculate_total_amount(&self.invest_assets, asset_prices)
    }
}


/// Field-for-field sameness of two orders, with byte fields compared by
/// content.
pub open spec fn same_order(a: Order, b: Order) -> bool {
    &&& a.id@ == b.id@
    &&& a.trader_id@ == b.trader_id@
    &&& a.wallet_id@ == b.wallet_id@
    &&& a.instrument@ == b.instrument@
    &&& a.base_asset@ == b.base_asset@
    &&& a.invest_assets@ == b.invest_assets@
    &&& a.invest_assets.key_seq() == b.invest_assets.key_seq()
    &&& a.leverage == b.leverage
    &&& a.created_date == b.created_date
    &&& a.side == b.side
    &&& a.take_profit == b.take_profit
    &&& a.stop_loss == b.stop_loss
    &&& a.stop_out_percent == b.stop_out_percent
    &&& a.margin_call_percent == b.margin_call_percent
    &&& a.top_up_enabled == b.top_up_enabled
    &&& a.top_up_percent == b.top_up_percent
    &&& a.funding_fee_period == b.funding_fee_period
    &&& a.desire_price == b.desire_price
}

impl Order {
    /// A fresh order with the same content.
    pub fn dup(&self) -> (r: Order)
        requires
            self.invest_assets.wf(),
        ensures
            same_order(r, *self),
            r.wf() <==> self.wf(),
    {
        Order {
            id: crate::symbols::bytes_dup(&self.id),
            trader_id: crate::symbols::bytes_dup(&self.trader_id),
            wallet_id: self.wallet_id.key_dup(),
            instrument: self.instrument.key_dup(),
            base_asset: self.base_asset.key_dup(),
            invest_assets: self.invest_assets.dup(),
            leverage: self.leverage,
            created_date: self.created_date,
            side: self.side,
            take_profit: self.take_profit,
            stop_loss: self.stop_loss,
            stop_out_percent: self.stop_out_percent,
            margin_call_percent: self.margin_call_percent,
            top_up_enabled: self.top_up_enabled,
            top_up_percent: self.top_up_percent,
            funding_fee_period: self.funding_fee_period,
            desire_price: self.desire_price,
        }
    }

    /// What opening a market order produces: an active position snapshotted
    /// from the quote, with the base asset priced at one.
    pub open spec fn spec_opened_active(
        self,
        id: PositionId,
        q: BidAsk,
        pm: Map<Seq<u8>, i64>,
        a: ActivePosition,
    ) -> bool {
        let pwb = pm.insert(self.base_asset@, SCALE);
        &&& a.id == id
        &&& a.order == self
        &&& a.open_price == q.spec_open_price(self.side)
        &&& a.open_date == q.datetime
        &&& a.open_asset_prices@ == pwb
        &&& a.activate_price == q.spec_open_price(self.side)
        &&& a.activate_date == q.datetime
        &&& a.activate_asset_prices@ == pwb
        &&& a.current_price == q.spec_close_price(self.side)
        &&& a.current_asset_prices@ == pwb
        &&& a.last_update_date == q.datetime
        &&& a.top_ups@.len() == 0
        &&& a.current_pnl == 0
        &&& a.current_loss_percent == 0
        &&& a.prev_loss_percent == 0
        &&& !a.top_up_locked
        &&& a.total_invest_assets@ == self.invest_assets@
        &&& a.bonus_invest_assets@ == Map::<Seq<u8>, i64>::empty()
    }

    /// What opening a limit order produces while its desire price has not
    /// been reached: a pending position priced off the quote.
    pub open spec fn spec_opened_pending(
        self,
        id: PositionId,
        q: BidAsk,
        pm: Map<Seq<u8>, i64>,
        p: PendingPosition,
    ) -> bool {
        let pwb = pm.insert(self.base_asset@, SCALE);
        &&& p.id == id
        &&& p.order == self
        &&& p.open_price == q.spec_open_price(self.side)
        &&& p.open_date == q.datetime
        &&& p.open_asset_prices@ == pwb
        &&& p.current_price == q.spec_open_price(self.side)
        &&& p.current_asset_prices@ == pwb
        &&& p.last_update_date == q.datetime
        &&& p.total_invest_assets@ == Map::<Seq<u8>, i64>::empty()
    }

    /// What opening a limit order produces when the quote already satisfies
    /// the desire price: an active position whose activation snapshot is the
    /// open price.
    pub open spec fn spec_opened_limit_active(
        self,
        id: PositionId,
        q: BidAsk,
        pm: Map<Seq<u8>, i64>,
        a: ActivePosition,
    ) -> bool {
        let pwb = pm.insert(self.base_asset@, SCALE);
        &&& a.id == id
        &&& a.order == self
        &&& a.open_price == q.spec_open_price(self.side)
        &&& a.open_date == q.datetime
        &&& a.open_asset_prices@ == pwb
        &&& a.activate_price == q.spec_open_price(self.side)
        &&& a.activate_date == q.datetime
        &&& a.activate_asset_prices@ == pwb
        &&& a.current_price == q.spec_open_price(self.side)
        &&& a.current_asset_prices@ == pwb
        &&& a.last_update_date == q.datetime
        &&& a.top_ups@.len() == 0
        &&& a.current_pnl == 0
        &&& a.current_loss_percent == 0
        &&& a.prev_loss_percent == 0
        &&& !a.top_up_locked
        &&& a.total_invest_assets@ == self.invest_assets@
    }

    /// Whether the quote's open price satisfies a limit order's desire
    /// price immediately.
    pub open spec fn spec_desire_reached_at_open(self, q: BidAsk) -> bool
        recommends
            self.desire_price is Some,
    {
        let dp = self.desire_price->0;
        let cp = q.spec_open_price(self.side);
        (self.side == OrderSide::Sell && cp >= dp) || (self.side == OrderSide::Buy && cp <= dp)
    }

    fn into_active(
        self,
        id: PositionId,
        bid_ask: &BidAsk,
        asset_prices: &SymMap<AssetSymbol, i64>,
    ) -> (a: ActivePosition)
        requires
            self.wf(),
            bid_ask.wf(),
            asset_prices.wf(),
            forall|k: Seq<u8>|
                self.invest_assets@.contains_key(k) ==> asset_prices@.contains_key(k),
        ensures
            a.wf(),
            self.spec_opened_active(id, *bid_ask, asset_prices@, a),
    {
        let now = bid_ask.datetime;
        let mut prices = asset_prices.dup();
        prices.insert(self.base_asset.key_dup(), SCALE);
        let open_price = bid_ask.get_open_price(&self.side);
        let current_price = bid_ask.get_close_price(&self.side);
        let total_invest_assets = self.invest_assets.dup();
        ActivePosition {
            id,
            open_date: now,
            open_price,
            open_asset_prices: prices.dup(),
            activate_price: open_price,
            activate_date: now,
            activate_asset_prices: prices.dup(),
            current_price,
            current_asset_prices: prices,
            last_update_date: now,
            top_ups: Vec::new(),
            current_pnl: 0,
            current_loss_percent: 0,
            prev_loss_percent: 0,
            top_up_locked: false,
            total_invest_assets,
            order: self,
            bonus_invest_assets: SymMap::empty(),
        }
    }

    fn into_pending(
        self,
        id: PositionId,
        bidask: &BidAsk,
        asset_prices: &SymMap<AssetSymbol, i64>,
    ) -> (p: PendingPosition)
        requires
            self.wf(),
            self.desire_price is Some,
            bidask.wf(),
            asset_prices.wf(),
            forall|k: Seq<u8>|
                self.invest_assets@.contains_key(k) ==> asset_prices@.contains_key(k),
        ensures
            p.wf(),
            self.spec_opened_pending(id, *bidask, asset_prices@, p),
    {
        let now = bidask.datetime;
        let mut prices = asset_prices.dup();
        prices.insert(self.base_asset.key_dup(), SCALE);
        let open_price = bidask.get_open_price(&self.side);
        PendingPosition {
            id,
            open_price,
            open_date: now,
            open_asset_prices: prices.dup(),
            current_asset_prices: prices,
            current_price: open_price,
            last_update_date: now,
            order: self,
            total_invest_assets: SymMap::empty(),
        }
    }

    /// Open a position under the given id: a market order activates at
    /// once; a limit order becomes pending and activates immediately only
    /// if the quote already satisfies its desire price.
    pub fn open_with_id(
        self,
        id: PositionId,
        bidask: &BidAsk,
        asset_prices: &SymMap<AssetSymbol, i64>,
    ) -> (r: Position)
        requires
            self.wf(),
            bidask.wf(),
            asset_prices.wf(),
            forall|k: Seq<u8>|
                self.invest_assets@.contains_key(k) ==> asset_prices@.contains_key(k),
        ensures
            r.wf(),
            self.desire_price is None ==> r is Active && self.spec_opened_active(
                id,
                *bidask,
                asset_prices@,
                r->Active_0,
            ),
            self.desire_price is Some && !self.spec_desire_reached_at_open(*bidask) ==> r
                is Pending && self.spec_opened_pending(id, *bidask, asset_prices@, r->Pending_0),
            self.desire_price is Some && self.spec_desire_reached_at_open(*bidask) ==> r
                is Active && self.spec_opened_limit_active(id, *bidask, asset_prices@, r->Active_0),
    {
        match self.get_type() {
            OrderType::Market => {
                let position = self.into_active(id, bidask, asset_prices);
                Position::Active(position)
            },
            OrderType::Limit => {
                let position = self.into_pending(id, bidask, asset_prices);
                position.try_activate()
            },
        }
    }

    /// Open a position under a fresh random id.
    pub fn open(self, bidask: &BidAsk, asset_prices: &SymMap<AssetSymbol, i64>) -> (r: Position)
        requires
            self.wf(),
            bidask.wf(),
            asset_prices.wf(),
            forall|k: Seq<u8>|
                self.invest_assets@.contains_key(k) ==> asset_prices@.contains_key(k),
        ensures
            r.wf(),
            self.desire_price is None ==> r is Active && self.spec_opened_active(
                r->Active_0.id,
                *bidask,
                asset_prices@,
                r->Active_0,
            ),
            self.desire_price is Some && !self.spec_desire_reached_at_open(*bidask) ==> r
                is Pending && self.spec_opened_pending(
                r->Pending_0.id,
                *bidask,
                asset_prices@,
                r->Pending_0,
            ),
            self.desire_price is Some && self.spec_desire_reached_at_open(*bidask) ==> r
                is Active && self.spec_opened_limit_active(
                r->Active_0.id,
                *bidask,
                asset_prices@,
                r->Active_0,
            ),
    {
        let id = PositionId::new(Position::generate_id());
        self.open_with_id(id, bidask, asset_prices)
    }
}

} // verus!
