//! The wallet aggregator: per-wallet unlocked balance, reserved top-up
//! balance, cross-position profit-and-loss, loss percent, and the
//! edge-triggered wallet margin call.

use vstd::prelude::*;
use crate::collections::SymMap;
use crate::errors::EngineError;
use crate::numeric::mul_div;
use crate::numeric::mul_div_spec;
use crate::numeric::percent_spec;
use crate::numeric::sat_add;
use crate::numeric::sat_add_spec;
use crate::numeric::sat_neg;
use crate::numeric::sat_neg_spec;
use crate::numeric::sat_sub;
use crate::numeric::sat_sub_spec;
use crate::numeric::SCALE;
use crate::orders::OrderSide;
use crate::positions::BidAsk;
use crate::symbols::get_instrument_symbol;
use crate::symbols::AssetSymbol;
use crate::symbols::InstrumentSymbol;
use crate::symbols::SymbolKey;
use crate::symbols::WalletId;

verus! {

/// One currency balance of a wallet, keyed by the instrument that prices
/// its asset in the wallet's estimation asset.
pub struct WalletBalance {
    pub id: Vec<u8>,
    pub instrument_symbol: InstrumentSymbol,
    pub asset_symbol: AssetSymbol,
    pub asset_amount: i64,
    pub is_locked: bool,
}

/// The values of `m` listed by `keys`, summed left to right with
/// saturation.
pub open spec fn spec_sum_values(keys: Seq<Seq<u8>>, m: Map<Seq<u8>, i64>) -> int
    decreases keys.len(),
{
    if keys.len() == 0 {
        0
    } else {
        sat_add_spec(spec_sum_values(keys.drop_last(), m), m[keys.last()] as int)
    }
}

/// The estimation-asset value of the amounts listed by `keys` at the given
/// prices; assets without a price contribute nothing.
pub open spec fn spec_reserved_value(
    keys: Seq<Seq<u8>>,
    amounts: Map<Seq<u8>, i64>,
    prices: Map<Seq<u8>, i64>,
) -> int
    decreases keys.len(),
{
    if keys.len() == 0 {
        0
    } else {
        let rest = spec_reserved_value(keys.drop_last(), amounts, prices);
        if prices.contains_key(keys.last()) {
            sat_add_spec(
                rest,
                mul_div_spec(
                    amounts[keys.last()] as int,
                    prices[keys.last()] as int,
                    SCALE as int,
                ),
            )
        } else {
            rest
        }
    }
}

/// The wallet's loss percent: zero while the cross-position
/// profit-and-loss is not negative, else the loss as a share of unlocked
/// plus reserved balance; with no balance to lose, the loss saturates.
pub open spec fn spec_wallet_loss(unlocked: int, reserved: int, pnl: int) -> int {
    if pnl >= 0 {
        0
    } else {
        let d = sat_add_spec(unlocked, reserved);
        if d > 0 {
            percent_spec(d, sat_neg_spec(pnl))
        } else {
            i64::MAX as int
        }
    }
}

/// Per-wallet cross-margin state.
pub struct Wallet {
    pub id: WalletId,
    pub trader_id: Vec<u8>,
    pub total_unlocked_balance: i64,
    pub margin_call_percent: i64,
    pub current_loss_percent: i64,
    pub prev_loss_percent: i64,
    pub estimate_asset: AssetSymbol,
    pub balances_by_instruments: SymMap<InstrumentSymbol, WalletBalance>,
    pub prices_by_assets: SymMap<AssetSymbol, i64>,
    pub top_up_pnls_by_instruments: SymMap<InstrumentSymbol, i64>,
    pub top_up_reserved_balance_by_instruments: SymMap<InstrumentSymbol, i64>,
    pub total_top_up_reserved_balance: i64,
}

impl Wallet {
    /// Validity: well-formed containers; every stored balance keyed by its
    /// own instrument, which is its asset paired with the estimation asset,
    /// and priced; and the reserved total equal to the sum of the
    /// per-instrument reserves.
    pub open spec fn wf(self) -> bool {
        &&& self.balances_by_instruments.wf()
        &&& self.prices_by_assets.wf()
        &&& self.top_up_pnls_by_instruments.wf()
        &&& self.top_up_reserved_balance_by_instruments.wf()
        &&& forall|k: Seq<u8>|
            #[trigger] self.balances_by_instruments@.contains_key(k) ==> {
                let b = self.balances_by_instruments@[k];
                &&& b.instrument_symbol@ == k
                &&& b.asset_symbol@ + self.estimate_asset@ == k
                &&& self.prices_by_assets@.contains_key(b.asset_symbol@)
            }
        &&& self.total_top_up_reserved_balance == spec_sum_values(
            self.top_up_reserved_balance_by_instruments.key_seq(),
            self.top_up_reserved_balance_by_instruments@,
        )
    }

    /// The reserved total always equals the sum of the per-instrument
    /// reserves: this holds after every wallet mutation, because every
    /// method preserves well-formedness.
    pub proof fn lemma_reserved_total_consistent(self)
        requires
            self.wf(),
        ensures
            self.total_top_up_reserved_balance == spec_sum_values(
                self.top_up_reserved_balance_by_instruments.key_seq(),
                self.top_up_reserved_balance_by_instruments@,
            ),
    {
    }

    pub fn new(
        id: WalletId,
        trader_id: Vec<u8>,
        estimate_asset: AssetSymbol,
        margin_call_percent: i64,
    ) -> (r: Wallet)
        ensures
            r.wf(),
            r.id == id,
            r.trader_id == trader_id,
            r.estimate_asset == estimate_asset,
            r.margin_call_percent == margin_call_percent,
            r.total_unlocked_balance == 0,
            r.current_loss_percent == 0,
            r.prev_loss_percent == 0,
            r.total_top_up_reserved_balance == 0,
            r.balances_by_instruments@ =~= Map::<Seq<u8>, WalletBalance>::empty(),
            r.prices_by_assets@ =~= Map::<Seq<u8>, i64>::empty(),
            r.top_up_pnls_by_instruments@ =~= Map::<Seq<u8>, i64>::empty(),
            r.top_up_reserved_balance_by_instruments@ =~= Map::<Seq<u8>, i64>::empty(),
    {
        Wallet {
            id,
            trader_id,
            total_unlocked_balance: 0,
            estimate_asset,
            balances_by_instruments: SymMap::empty(),
            prices_by_assets: SymMap::empty(),
            margin_call_percent,
            current_loss_percent: 0,
            prev_loss_percent: 0,
            top_up_pnls_by_instruments: SymMap::empty(),
            top_up_reserved_balance_by_instruments: SymMap::empty(),
            total_top_up_reserved_balance: 0,
        }
    }

    /// Recompute the reserved total from the per-instrument reserves.
    fn recompute_reserved_total(&mut self)
        requires
            old(self).top_up_reserved_balance_by_instruments.wf(),
        ensures
            *final(self) == (Wallet {
                total_top_up_reserved_balance: final(self).total_top_up_reserved_balance,
                ..*old(self)
            }),
            final(self).total_top_up_reserved_balance == spec_sum_values(
                old(self).top_up_reserved_balance_by_instruments.key_seq(),
                old(self).top_up_reserved_balance_by_instruments@,
            ),
    {
        let n = self.top_up_reserved_balance_by_instruments.len();
        let mut total: i64 = 0;
        let mut i: usize = 0;
        proof {
            assert(self.top_up_reserved_balance_by_instruments.key_seq().take(0)
                =~= Seq::<Seq<u8>>::empty());
        }
        while i < n
            invariant
                self.top_up_reserved_balance_by_instruments.wf(),
                *self == *old(self),
                i <= n,
                n == self.top_up_reserved_balance_by_instruments.spec_len(),
                total == spec_sum_values(
                    self.top_up_reserved_balance_by_instruments.key_seq().take(i as int),
                    self.top_up_reserved_balance_by_instruments@,
                ),
            decreases n - i,
        {
            let v = *self.top_up_reserved_balance_by_instruments.val_at(i);
            proof {
                let ks = self.top_up_reserved_balance_by_instruments.key_seq();
                assert(ks.take(i + 1).drop_last() =~= ks.take(i as int));
                assert(ks.take(i + 1).last() == ks[i as int]);
            }
            total = sat_add(total, v);
            i = i + 1;
        }
        proof {
            let ks = self.top_up_reserved_balance_by_instruments.key_seq();
            assert(ks.take(n as int) =~= ks);
        }
        self.total_top_up_reserved_balance = total;
    }

    /// Price the given reserve amounts at the stored asset prices and store
    /// the result for `instrument`, inserting or updating, then refresh the
    /// reserved total.
    pub fn set_top_up_reserved(
        &mut self,
        instrument: &InstrumentSymbol,
        instrument_reserved: &SymMap<AssetSymbol, i64>,
    )
        requires
            old(self).wf(),
            instrument_reserved.wf(),
        ensures
            final(self).wf(),
            final(self).top_up_reserved_balance_by_instruments@ == old(self).top_up_reserved_balance_by_instruments@.insert(
                instrument@,
                spec_reserved_value(
                    instrument_reserved.key_seq(),
                    instrument_reserved@,
                    old(self).prices_by_assets@,
                ) as i64,
            ),
            final(self).total_top_up_reserved_balance == spec_sum_values(
                final(self).top_up_reserved_balance_by_instruments.key_seq(),
                final(self).top_up_reserved_balance_by_instruments@,
            ),
            *final(self) == (Wallet {
                top_up_reserved_balance_by_instruments: final(self).top_up_reserved_balance_by_instruments,
                total_top_up_reserved_balance: final(self).total_top_up_reserved_balance,
                ..*old(self)
            }),
    {
        let n = instrument_reserved.len();
        let mut new_reserved: i64 = 0;
        let mut i: usize = 0;
        proof {
            assert(instrument_reserved.key_seq().take(0) =~= Seq::<Seq<u8>>::empty());
        }
        while i < n
            invariant
                old(self).wf(),
                *self == *old(self),
                instrument_reserved.wf(),
                i <= n,
                n == instrument_reserved.spec_len(),
                new_reserved == spec_reserved_value(
                    instrument_reserved.key_seq().take(i as int),
                    instrument_reserved@,
                    self.prices_by_assets@,
                ),
            decreases n - i,
        {
            let asset = instrument_reserved.key_at(i);
            let amount = *instrument_reserved.val_at(i);
            proof {
                let ks = instrument_reserved.key_seq();
                assert(ks.take(i + 1).drop_last() =~= ks.take(i as int));
                assert(ks.take(i + 1).last() == ks[i as int]);
            }
            let price = self.prices_by_assets.get(asset);
            match price {
                Some(p) => {
                    let term = mul_div(amount, *p, SCALE);
                    new_reserved = sat_add(new_reserved, term);
                },
                None => {},
            }
            i = i + 1;
        }
        proof {
            assert(instrument_reserved.key_seq().take(n as int)
                =~= instrument_reserved.key_seq());
        }
        self.top_up_reserved_balance_by_instruments.insert(instrument.key_dup(), new_reserved);
        self.recompute_reserved_total();
    }

    /// The instruments of the stored balances, in stored order.
    pub fn get_instruments(&self) -> (r: Vec<InstrumentSymbol>)
        requires
            self.balances_by_instruments.wf(),
        ensures
            r@.map_values(|s: InstrumentSymbol| s@) == self.balances_by_instruments.key_seq(),
    {
        let n = self.balances_by_instruments.len();
        let mut out: Vec<InstrumentSymbol> = Vec::new();
        let mut i: usize = 0;
        while i < n
            invariant
                self.balances_by_instruments.wf(),
                i <= n,
                n == self.balances_by_instruments.spec_len(),
                out@.len() == i,
                forall|j: int|
                    0 <= j < i ==> #[trigger] out@[j]@
                        == self.balances_by_instruments.key_seq()[j],
            decreases n - i,
        {
            let k = self.balances_by_instruments.key_at(i);
            out.push(k.key_dup());
            i = i + 1;
        }
        proof {
            assert(out@.map_values(|s: InstrumentSymbol| s@)
                =~= self.balances_by_instruments.key_seq());
        }
        out
    }

    /// Overwrite the cross-position profit-and-loss recorded for an
    /// instrument.
    pub fn set_top_up_pnl(&mut self, instrument: &InstrumentSymbol, instrument_pnl: i64)
        requires
            old(self).wf(),
        ensures
            final(self).wf(),
            final(self).top_up_pnls_by_instruments@ == old(self).top_up_pnls_by_instruments@.insert(instrument@, instrument_pnl),
            *final(self) == (Wallet {
                top_up_pnls_by_instruments: final(self).top_up_pnls_by_instruments,
                ..*old(self)
            }),
    {
        self.top_up_pnls_by_instruments.insert(instrument.key_dup(), instrument_pnl);
    }

    /// Subtract a closed position's profit-and-loss from the instrument's
    /// record, if one exists.
    pub fn deduct_top_up_pnl(&mut self, instrument: &InstrumentSymbol, instrument_pnl: i64)
        requires
            old(self).wf(),
        ensures
            final(self).wf(),
            old(self).top_up_pnls_by_instruments@.contains_key(instrument@) ==> final(self).top_up_pnls_by_instruments@ == old(self).top_up_pnls_by_instruments@.insert(
                instrument@,
                sat_sub_spec(
                    old(self).top_up_pnls_by_instruments@[instrument@] as int,
                    instrument_pnl as int,
                ) as i64,
            ),
            !old(self).top_up_pnls_by_instruments@.contains_key(instrument@) ==> final(self).top_up_pnls_by_instruments@ == old(self).top_up_pnls_by_instruments@,
            *final(self) == (Wallet {
                top_up_pnls_by_instruments: final(self).top_up_pnls_by_instruments,
                ..*old(self)
            }),
            spec_deducted(*old(self), *final(self), instrument@, instrument_pnl),
    {
        let cur = self.top_up_pnls_by_instruments.get(instrument);
        match cur {
            Some(v) => {
                let nv = sat_sub(*v, instrument_pnl);
                self.top_up_pnls_by_instruments.insert(instrument.key_dup(), nv);
            },
            None => {
                proof {
                    assert(self.top_up_pnls_by_instruments@
                        =~= old(self).top_up_pnls_by_instruments@);
                }
            },
        }
    }

    /// Add to the instrument's recorded profit-and-loss, starting it when
    /// absent.
    pub fn add_top_up_pnl(&mut self, instrument: &InstrumentSymbol, instrument_pnl: i64)
        requires
            old(self).wf(),
        ensures
            final(self).wf(),
            final(self).top_up_pnls_by_instruments@ == old(self).top_up_pnls_by_instruments@.insert(
                instrument@,
                sat_add_spec(
                    (if old(self).top_up_pnls_by_instruments@.contains_key(instrument@) {
                        old(self).top_up_pnls_by_instruments@[instrument@] as int
                    } else {
                        0
                    }),
                    instrument_pnl as int,
                ) as i64,
            ),
            *final(self) == (Wallet {
                top_up_pnls_by_instruments: final(self).top_up_pnls_by_instruments,
                ..*old(self)
            }),
    {
        let cur = self.top_up_pnls_by_instruments.get(instrument);
        match cur {
            Some(v) => {
                let nv = sat_add(*v, instrument_pnl);
                self.top_up_pnls_by_instruments.insert(instrument.key_dup(), nv);
            },
            None => {
                let nv = sat_add(0, instrument_pnl);
                self.top_up_pnls_by_instruments.insert(instrument.key_dup(), nv);
            },
        }
    }

    /// The cross-position profit-and-loss: the per-instrument records
    /// summed in stored order.
    pub fn calc_total_pnl(&self) -> (r: i64)
        requires
            self.top_up_pnls_by_instruments.wf(),
        ensures
            r == spec_sum_values(
                self.top_up_pnls_by_instruments.key_seq(),
                self.top_up_pnls_by_instruments@,
            ),
    {
        let n = self.top_up_pnls_by_instruments.len();
        let mut total: i64 = 0;
        let mut i: usize = 0;
        proof {
            assert(self.top_up_pnls_by_instruments.key_seq().take(0)
                =~= Seq::<Seq<u8>>::empty());
        }
        while i < n
            invariant
                self.top_up_pnls_by_instruments.wf(),
                i <= n,
                n == self.top_up_pnls_by_instruments.spec_len(),
                total == spec_sum_values(
                    self.top_up_pnls_by_instruments.key_seq().take(i as int),
                    self.top_up_pnls_by_instruments@,
                ),
            decreases n - i,
        {
            let v = *self.top_up_pnls_by_instruments.val_at(i);
            proof {
                let ks = self.top_up_pnls_by_instruments.key_seq();
                assert(ks.take(i + 1).drop_last() =~= ks.take(i as int));
                assert(ks.take(i + 1).last() == ks[i as int]);
            }
            total = sat_add(total, v);
            i = i + 1;
        }
        proof {
            let ks = self.top_up_pnls_by_instruments.key_seq();
            assert(ks.take(n as int) =~= ks);
        }
        total
    }

    /// Shift the loss percent and recompute it from the cross-position
    /// profit-and-loss: the previous value always becomes the old current
    /// value.
    pub fn update_loss(&mut self)
        requires
            old(self).wf(),
        ensures
            final(self).wf(),
            final(self).prev_loss_percent == old(self).current_loss_percent,
            final(self).current_loss_percent == spec_wallet_loss(
                old(self).total_unlocked_balance as int,
                old(self).total_top_up_reserved_balance as int,
                spec_sum_values(
                    old(self).top_up_pnls_by_instruments.key_seq(),
                    old(self).top_up_pnls_by_instruments@,
                ),
            ),
            *final(self) == (Wallet {
                prev_loss_percent: old(self).current_loss_percent,
                current_loss_percent: final(self).current_loss_percent,
                ..*old(self)
            }),
    {
        self.prev_loss_percent = self.current_loss_percent;
        let pnl = self.calc_total_pnl();
        if pnl < 0 {
            let d = sat_add(self.total_unlocked_balance, self.total_top_up_reserved_balance);
            if d > 0 {
                let loss = crate::calculations::calculate_percent(d, sat_neg(pnl));
                self.current_loss_percent = loss;
            } else {
                self.current_loss_percent = i64::MAX;
            }
        } else {
            self.current_loss_percent = 0;
        }
    }

    /// Edge-triggered: true exactly when the loss percent sits at or above
    /// the threshold while the previous value was still below it.
    pub fn is_margin_call(&self) -> (r: bool)
        ensures
            r == (self.current_loss_percent >= self.margin_call_percent
                && self.prev_loss_percent < self.margin_call_percent),
    {
        self.current_loss_percent >= self.margin_call_percent && self.prev_loss_percent
            < self.margin_call_percent
    }

    /// Add a balance: the quote must be for the balance's asset paired with
    /// the estimation asset, and the balance must be keyed by that
    /// instrument. Stores the sell-side asset price, counts the valued
    /// amount into the unlocked total unless locked, and stores the
    /// balance.
    pub fn add_balance(&mut self, balance: WalletBalance, bid_ask: &BidAsk) -> (r: Result<
        (),
        EngineError,
    >)
        requires
            old(self).wf(),
        ensures
            final(self).wf(),
            r is Ok <==> (bid_ask.instrument@ == balance.asset_symbol@ + old(self).estimate_asset@ && balance.instrument_symbol@ == bid_ask.instrument@),
            r is Err ==> r->Err_0 == EngineError::BidAskInstrumentMismatch && *final(self)
                == *old(self),
            r is Ok ==> {
                let price = bid_ask.spec_asset_price(OrderSide::Sell);
                &&& final(self).prices_by_assets@ == old(self).prices_by_assets@.insert(
                    balance.asset_symbol@,
                    price,
                )
                &&& final(self).balances_by_instruments@ == old(self).balances_by_instruments@.insert(balance.instrument_symbol@, balance)
                &&& final(self).total_unlocked_balance == (if balance.is_locked {
                    old(self).total_unlocked_balance as int
                } else {
                    sat_add_spec(
                        old(self).total_unlocked_balance as int,
                        mul_div_spec(balance.asset_amount as int, price as int, SCALE as int),
                    )
                })
                &&& *final(self) == (Wallet {
                    prices_by_assets: final(self).prices_by_assets,
                    balances_by_instruments: final(self).balances_by_instruments,
                    total_unlocked_balance: final(self).total_unlocked_balance,
                    ..*old(self)
                })
            },
    {
        let instrument_id = get_instrument_symbol(&balance.asset_symbol, &self.estimate_asset);
        if !instrument_id.key_eq(&bid_ask.instrument)
            || !balance.instrument_symbol.key_eq(&bid_ask.instrument) {
            return Err(EngineError::BidAskInstrumentMismatch);
        }
        proof {
            assert((balance.asset_symbol@ + self.estimate_asset@).subrange(
                0,
                balance.asset_symbol@.len() as int,
            ) =~= balance.asset_symbol@);
            assert(balance.asset_symbol@.is_prefix_of(bid_ask.instrument@));
        }
        let price = bid_ask.get_asset_price(&balance.asset_symbol, &OrderSide::Sell);
        self.prices_by_assets.insert(balance.asset_symbol.key_dup(), price);
        if !balance.is_locked {
            let estimate_amount = mul_div(balance.asset_amount, price, SCALE);
            self.total_unlocked_balance = sat_add(self.total_unlocked_balance, estimate_amount);
        }
        let key = balance.instrument_symbol.key_dup();
        self.balances_by_instruments.insert(key, balance);
        Ok(())
    }

    /// Replace the balance stored under the same instrument key,
    /// delta-adjusting the unlocked total at the currently stored price:
    /// the old amount leaves the total if it was unlocked, the new amount
    /// enters it if it is unlocked.
    pub fn update_balance(&mut self, balance: WalletBalance) -> (r: Result<(), EngineError>)
        requires
            old(self).wf(),
        ensures
            final(self).wf(),
            r is Err ==> *final(self) == *old(self),
            !old(self).balances_by_instruments@.contains_key(balance.instrument_symbol@)
                ==> r == Result::<(), EngineError>::Err(EngineError::BalanceNotFound) && *final(self) == *old(self),
            old(self).balances_by_instruments@.contains_key(balance.instrument_symbol@)
                && !(balance.asset_symbol@ + old(self).estimate_asset@
                == balance.instrument_symbol@) ==> r == Result::<(), EngineError>::Err(
                EngineError::BidAskInstrumentMismatch,
            ) && *final(self) == *old(self),
            old(self).balances_by_instruments@.contains_key(balance.instrument_symbol@)
                && balance.asset_symbol@ + old(self).estimate_asset@
                == balance.instrument_symbol@ ==> r is Ok,
            r is Ok ==> spec_balance_updated(*old(self), *final(self), balance),
            r is Ok ==> {
                let k = balance.instrument_symbol@;
                let old_b = old(self).balances_by_instruments@[k];
                let price = old(self).prices_by_assets@[old_b.asset_symbol@] as int;
                let after_sub = (if old_b.is_locked {
                    old(self).total_unlocked_balance as int
                } else {
                    sat_sub_spec(
                        old(self).total_unlocked_balance as int,
                        mul_div_spec(old_b.asset_amount as int, price, SCALE as int),
                    )
                });
                &&& old(self).balances_by_instruments@.contains_key(k)
                &&& balance.asset_symbol@ + old(self).estimate_asset@ == k
                &&& final(self).balances_by_instruments@ == old(self).balances_by_instruments@.insert(k, balance)
                &&& final(self).prices_by_assets@ == old(self).prices_by_assets@.insert(
                    balance.asset_symbol@,
                    old(self).prices_by_assets@[old_b.asset_symbol@],
                )
                &&& final(self).total_unlocked_balance == (if balance.is_locked {
                    after_sub
                } else {
                    sat_add_spec(
                        after_sub,
                        mul_div_spec(balance.asset_amount as int, price, SCALE as int),
                    )
                })
                &&& *final(self) == (Wallet {
                    balances_by_instruments: final(self).balances_by_instruments,
                    prices_by_assets: final(self).prices_by_assets,
                    total_unlocked_balance: final(self).total_unlocked_balance,
                    ..*old(self)
                })
            },
    {
        let inner = self.balances_by_instruments.get(&balance.instrument_symbol);
        let (old_amount, old_locked, old_asset) = match inner {
            Some(b) => (b.asset_amount, b.is_locked, b.asset_symbol.key_dup()),
            None => {
                return Err(EngineError::BalanceNotFound);
            },
        };
        let expected = get_instrument_symbol(&balance.asset_symbol, &self.estimate_asset);
        if !expected.key_eq(&balance.instrument_symbol) {
            return Err(EngineError::BidAskInstrumentMismatch);
        }
        let price = match self.prices_by_assets.get(&old_asset) {
            Some(p) => *p,
            None => 0,  // unreachable: every stored balance's asset is priced
        };
        if !old_locked {
            let leave = mul_div(old_amount, price, SCALE);
            self.total_unlocked_balance = sat_sub(self.total_unlocked_balance, leave);
        }
        if !balance.is_locked {
            let enter = mul_div(balance.asset_amount, price, SCALE);
            self.total_unlocked_balance = sat_add(self.total_unlocked_balance, enter);
        }
        self.prices_by_assets.insert(balance.asset_symbol.key_dup(), price);
        let key = balance.instrument_symbol.key_dup();
        self.balances_by_instruments.insert(key, balance);
        Ok(())
    }

    /// First stored position of the balance with this id, or the length if
    /// none matches.
    pub open spec fn spec_find_balance(vals: Seq<WalletBalance>, id: Seq<u8>) -> int
        decreases vals.len(),
    {
        if vals.len() == 0 {
            0
        } else {
            if vals.first().id@ == id {
                0
            } else {
                1 + Self::spec_find_balance(vals.drop_first(), id)
            }
        }
    }

    /// Toggle a balance's lock by its id, idempotently; the valued amount
    /// leaves or enters the unlocked total to match the transition.
    pub fn set_balance_lock(&mut self, balance_id: &[u8], is_locked: bool) -> (r: Result<
        (),
        EngineError,
    >)
        requires
            old(self).wf(),
        ensures
            final(self).wf(),
            r is Err <==> (forall|j: int|
                0 <= j < old(self).balances_by_instruments.val_seq().len()
                    ==> (#[trigger] old(self).balances_by_instruments.val_seq()[j]).id@
                    != balance_id@),
            r is Err ==> r->Err_0 == EngineError::BalanceNotFound && *final(self) == *old(self),
            r is Ok ==> {
                let vals = old(self).balances_by_instruments.val_seq();
                let j = Self::spec_find_balance(vals, balance_id@);
                let b = vals[j];
                let k = old(self).balances_by_instruments.key_seq()[j];
                let price = old(self).prices_by_assets@[b.asset_symbol@] as int;
                let amount = mul_div_spec(b.asset_amount as int, price, SCALE as int);
                &&& 0 <= j < vals.len()
                &&& final(self).balances_by_instruments@ == old(self).balances_by_instruments@.insert(
                    k,
                    WalletBalance {
                        id: b.id,
                        instrument_symbol: b.instrument_symbol,
                        asset_symbol: b.asset_symbol,
                        asset_amount: b.asset_amount,
                        is_locked,
                    },
                )
                &&& final(self).total_unlocked_balance == (if b.is_locked == is_locked {
                    old(self).total_unlocked_balance as int
                } else if is_locked {
                    sat_sub_spec(old(self).total_unlocked_balance as int, amount)
                } else {
                    sat_add_spec(old(self).total_unlocked_balance as int, amount)
                })
                &&& *final(self) == (Wallet {
                    balances_by_instruments: final(self).balances_by_instruments,
                    total_unlocked_balance: final(self).total_unlocked_balance,
                    ..*old(self)
                })
            },
            final(self).balances_by_instruments.key_seq() == old(
                self,
            ).balances_by_instruments.key_seq(),
    {
        let n = self.balances_by_instruments.len();
        let mut i: usize = 0;
        while i < n
            invariant
                old(self).wf(),
                *self == *old(self),
                i <= n,
                n == self.balances_by_instruments.spec_len(),
                forall|j: int|
                    0 <= j < i ==> (#[trigger] self.balances_by_instruments.val_seq()[j]).id@
                        != balance_id@,
            decreases n - i,
        {
            let b_ref = self.balances_by_instruments.val_at(i);
            if crate::symbols::bytes_eq(b_ref.id.as_slice(), balance_id) {
                proof {
                    lemma_find_balance_at(
                        self.balances_by_instruments.val_seq(),
                        balance_id@,
                        i as int,
                    );
                    self.balances_by_instruments.lemma_at(i as int);
                }
                let key = self.balances_by_instruments.key_at(i).key_dup();
                let was_locked = b_ref.is_locked;
                let bal_asset = b_ref.asset_symbol.key_dup();
                let bal_amount = b_ref.asset_amount;
                if was_locked == is_locked {
                    // Already in the requested state: the toggle is
                    // idempotent and nothing moves.
                    let ghost k = key.key();
                    proof {
                        assert(self.balances_by_instruments@ =~= self.balances_by_instruments@
                            .insert(k, self.balances_by_instruments@[k]));
                    }
                    return Ok(());
                }
                let price = match self.prices_by_assets.get(&bal_asset) {
                    Some(p) => *p,
                    None => 0,  // unreachable: every stored balance's asset is priced
                };
                let amount = mul_div(bal_amount, price, SCALE);
                if is_locked {
                    self.total_unlocked_balance = sat_sub(self.total_unlocked_balance, amount);
                } else {
                    self.total_unlocked_balance = sat_add(self.total_unlocked_balance, amount);
                }
                let ghost pre = self.balances_by_instruments;
                let ghost k = key.key();
                let slot = self.balances_by_instruments.get_mut(&key);
                match slot {
                    Some(b) => {
                        b.is_locked = is_locked;
                    },
                    None => {
                        proof {
                            assert(false);  // the balance was found at column i
                        }
                    },
                }
                proof {
                    pre.lemma_present(k);
                    SymMap::<InstrumentSymbol, WalletBalance>::lemma_update_at(
                        pre,
                        self.balances_by_instruments,
                        pre.spec_idx(k),
                    );
                    assert(self.balances_by_instruments@ =~= old(
                        self,
                    ).balances_by_instruments@.insert(k, self.balances_by_instruments@[k]));
                }
                return Ok(());
            }
            i = i + 1;
        }
        proof {
            assert forall|j: int|
                0 <= j < old(self).balances_by_instruments.val_seq().len()
                implies (#[trigger] old(self).balances_by_instruments.val_seq()[j]).id@
                != balance_id@ by {}
        }
        Err(EngineError::BalanceNotFound)
    }

    /// Re-value the single balance keyed by the quote's instrument at the
    /// quote's sell-side asset price, adjusting the unlocked total when the
    /// balance is unlocked, and rewrite the stored price.
    pub fn update_price(&mut self, bid_ask: &BidAsk)
        requires
            old(self).wf(),
        ensures
            final(self).wf(),
            !old(self).balances_by_instruments@.contains_key(bid_ask.instrument@) ==> *final(self) == *old(self),
            old(self).balances_by_instruments@.contains_key(bid_ask.instrument@) ==> {
                let b = old(self).balances_by_instruments@[bid_ask.instrument@];
                let old_price = old(self).prices_by_assets@[b.asset_symbol@] as int;
                let new_price = bid_ask.spec_asset_price(OrderSide::Sell) as int;
                &&& final(self).prices_by_assets@ == old(self).prices_by_assets@.insert(
                    b.asset_symbol@,
                    new_price as i64,
                )
                &&& final(self).total_unlocked_balance == (if b.is_locked {
                    old(self).total_unlocked_balance as int
                } else {
                    sat_add_spec(
                        sat_sub_spec(
                            old(self).total_unlocked_balance as int,
                            mul_div_spec(b.asset_amount as int, old_price, SCALE as int),
                        ),
                        mul_div_spec(b.asset_amount as int, new_price, SCALE as int),
                    )
                })
                &&& *final(self) == (Wallet {
                    prices_by_assets: final(self).prices_by_assets,
                    total_unlocked_balance: final(self).total_unlocked_balance,
                    ..*old(self)
                })
            },
    {
        let found = self.balances_by_instruments.get(&bid_ask.instrument);
        let (asset, amount_raw, locked) = match found {
            Some(b) => (b.asset_symbol.key_dup(), b.asset_amount, b.is_locked),
            None => {
                return ;
            },
        };
        proof {
            let b = self.balances_by_instruments@[bid_ask.instrument@];
            assert((b.asset_symbol@ + self.estimate_asset@).subrange(
                0,
                b.asset_symbol@.len() as int,
            ) =~= b.asset_symbol@);
            assert(b.asset_symbol@.is_prefix_of(bid_ask.instrument@));
        }
        let new_price = bid_ask.get_asset_price(&asset, &OrderSide::Sell);
        let old_price = match self.prices_by_assets.get(&asset) {
            Some(p) => *p,
            None => 0,  // unreachable: every stored balance's asset is priced
        };
        if !locked {
            let leave = mul_div(amount_raw, old_price, SCALE);
            self.total_unlocked_balance = sat_sub(self.total_unlocked_balance, leave);
            let enter = mul_div(amount_raw, new_price, SCALE);
            self.total_unlocked_balance = sat_add(self.total_unlocked_balance, enter);
        }
        self.prices_by_assets.insert(asset, new_price);
    }
}

proof fn lemma_find_balance_at(vals: Seq<WalletBalance>, id: Seq<u8>, i: int)
    requires
        0 <= i < vals.len(),
        vals[i].id@ == id,
        forall|j: int| 0 <= j < i ==> (#[trigger] vals[j]).id@ != id,
    ensures
        Wallet::spec_find_balance(vals, id) == i,
    decreases vals.len(),
{
    if i > 0 {
        assert(vals.first().id@ != id);
        lemma_find_balance_at(vals.drop_first(), id, i - 1);
        assert forall|j: int| 0 <= j < i - 1 implies (#[trigger] vals.drop_first()[j]).id@
            != id by {
            assert(vals.drop_first()[j] == vals[j + 1]);
        }
    }
}

proof fn lemma_find_nonneg(vals: Seq<WalletBalance>, id: Seq<u8>)
    ensures
        Wallet::spec_find_balance(vals, id) >= 0,
    decreases vals.len(),
{
    if vals.len() > 0 && vals.first().id@ != id {
        lemma_find_nonneg(vals.drop_first(), id);
    }
}

proof fn lemma_find_balance_past(vals: Seq<WalletBalance>, id: Seq<u8>, i: int)
    requires
        0 <= i < vals.len(),
        forall|j: int| 0 <= j <= i ==> (#[trigger] vals[j]).id@ != id,
    ensures
        Wallet::spec_find_balance(vals, id) >= i + 1,
    decreases vals.len(),
{
    assert(vals.first().id@ != id);
    if i == 0 {
        lemma_find_nonneg(vals.drop_first(), id);
    } else {
        assert forall|j: int| 0 <= j <= i - 1 implies (#[trigger] vals.drop_first()[j]).id@
            != id by {
            assert(vals.drop_first()[j] == vals[j + 1]);
        }
        lemma_find_balance_past(vals.drop_first(), id, i - 1);
    }
}


/// How a successful `update_balance(balance)` changes a wallet: the
/// stored balance under the same instrument key is replaced, the unlocked
/// total loses the old amount (if it was unlocked) and gains the new one
/// (if it is unlocked), both valued at the currently stored price, and the
/// price is re-keyed under the new balance's asset.
pub open spec fn spec_balance_updated(pre: Wallet, post: Wallet, balance: WalletBalance) -> bool {
    let k = balance.instrument_symbol@;
    let old_b = pre.balances_by_instruments@[k];
    let price = pre.prices_by_assets@[old_b.asset_symbol@] as int;
    let after_sub = (if old_b.is_locked {
        pre.total_unlocked_balance as int
    } else {
        sat_sub_spec(
            pre.total_unlocked_balance as int,
            mul_div_spec(old_b.asset_amount as int, price, SCALE as int),
        )
    });
    &&& pre.balances_by_instruments@.contains_key(k)
    &&& balance.asset_symbol@ + pre.estimate_asset@ == k
    &&& post.balances_by_instruments@ == pre.balances_by_instruments@.insert(k, balance)
    &&& post.prices_by_assets@ == pre.prices_by_assets@.insert(
        balance.asset_symbol@,
        pre.prices_by_assets@[old_b.asset_symbol@],
    )
    &&& post.total_unlocked_balance == (if balance.is_locked {
        after_sub
    } else {
        sat_add_spec(after_sub, mul_div_spec(balance.asset_amount as int, price, SCALE as int))
    })
    &&& post == (Wallet {
        balances_by_instruments: post.balances_by_instruments,
        prices_by_assets: post.prices_by_assets,
        total_unlocked_balance: post.total_unlocked_balance,
        ..pre
    })
}

/// How `deduct_top_up_pnl` changes a wallet: the instrument's recorded
/// profit-and-loss is reduced, everything else stays.
pub open spec fn spec_deducted(pre: Wallet, post: Wallet, instrument: Seq<u8>, pnl: i64) -> bool {
    &&& (pre.top_up_pnls_by_instruments@.contains_key(instrument)
        ==> post.top_up_pnls_by_instruments@ == pre.top_up_pnls_by_instruments@.insert(
        instrument,
        sat_sub_spec(pre.top_up_pnls_by_instruments@[instrument] as int, pnl as int) as i64,
    ))
    &&& (!pre.top_up_pnls_by_instruments@.contains_key(instrument)
        ==> post.top_up_pnls_by_instruments@ == pre.top_up_pnls_by_instruments@)
    &&& post == (Wallet { top_up_pnls_by_instruments: post.top_up_pnls_by_instruments, ..pre })
}

/// Content sameness of two balances.
pub open spec fn same_balance(a: WalletBalance, b: WalletBalance) -> bool {
    &&& a.id@ == b.id@
    &&& a.instrument_symbol@ == b.instrument_symbol@
    &&& a.asset_symbol@ == b.asset_symbol@
    &&& a.asset_amount == b.asset_amount
    &&& a.is_locked == b.is_locked
}

/// Content sameness of two wallets.
pub open spec fn same_wallet(a: Wallet, b: Wallet) -> bool {
    &&& a.id@ == b.id@
    &&& a.trader_id@ == b.trader_id@
    &&& a.total_unlocked_balance == b.total_unlocked_balance
    &&& a.margin_call_percent == b.margin_call_percent
    &&& a.current_loss_percent == b.current_loss_percent
    &&& a.prev_loss_percent == b.prev_loss_percent
    &&& a.estimate_asset@ == b.estimate_asset@
    &&& a.balances_by_instruments.key_seq() == b.balances_by_instruments.key_seq()
    &&& forall|k: Seq<u8>|
        #[trigger] a.balances_by_instruments@.contains_key(k)
            ==> b.balances_by_instruments@.contains_key(k) && same_balance(
            a.balances_by_instruments@[k],
            b.balances_by_instruments@[k],
        )
    &&& a.prices_by_assets@ == b.prices_by_assets@
    &&& a.top_up_pnls_by_instruments@ == b.top_up_pnls_by_instruments@
    &&& a.top_up_pnls_by_instruments.key_seq() == b.top_up_pnls_by_instruments.key_seq()
    &&& a.top_up_reserved_balance_by_instruments@ == b.top_up_reserved_balance_by_instruments@
    &&& a.top_up_reserved_balance_by_instruments.key_seq()
        == b.top_up_reserved_balance_by_instruments.key_seq()
    &&& a.total_top_up_reserved_balance == b.total_top_up_reserved_balance
}

impl WalletBalance {
    /// A fresh balance with the same content.
    pub fn dup(&self) -> (r: WalletBalance)
        ensures
            same_balance(r, *self),
    {
        WalletBalance {
            id: crate::symbols::bytes_dup(&self.id),
            instrument_symbol: self.instrument_symbol.key_dup(),
            asset_symbol: self.asset_symbol.key_dup(),
            asset_amount: self.asset_amount,
            is_locked: self.is_locked,
        }
    }
}

impl Wallet {
    fn dup_balances(&self) -> (r: SymMap<InstrumentSymbol, WalletBalance>)
        requires
            self.balances_by_instruments.wf(),
        ensures
            r.wf(),
            r.key_seq() == self.balances_by_instruments.key_seq(),
            forall|k: Seq<u8>|
                #[trigger] r@.contains_key(k) == self.balances_by_instruments@.contains_key(k),
            forall|k: Seq<u8>|
                #[trigger] r@.contains_key(k) ==> same_balance(
                    r@[k],
                    self.balances_by_instruments@[k],
                ),
    {
        let src = &self.balances_by_instruments;
        let n = src.len();
        let mut out: SymMap<InstrumentSymbol, WalletBalance> = SymMap::empty();
        let mut i: usize = 0;
        while i < n
            invariant
                src.wf(),
                src == self.balances_by_instruments,
                out.wf(),
                i <= n,
                n == src.spec_len(),
                out.key_seq() =~= src.key_seq().take(i as int),
                forall|k: Seq<u8>|
                    #[trigger] out@.contains_key(k) ==> src@.contains_key(k) && same_balance(
                        out@[k],
                        src@[k],
                    ),
            decreases n - i,
        {
            let k = src.key_at(i);
            let v = src.val_at(i);
            proof {
                crate::collections::lemma_keyseq_dom(out);
                if out.key_seq().contains(k.key()) {
                    let j = choose|j: int|
                        0 <= j < out.key_seq().len() && out.key_seq()[j] == k.key();
                    assert(src.key_seq()[j] == k.key());
                    assert(false);
                }
            }
            out.insert(k.key_dup(), v.dup());
            proof {
                assert(out.key_seq() =~= src.key_seq().take(i as int + 1));
            }
            i = i + 1;
        }
        proof {
            assert(out.key_seq() =~= src.key_seq());
            crate::collections::lemma_keyseq_dom(out);
            crate::collections::lemma_keyseq_dom(*src);
            assert forall|k: Seq<u8>| #[trigger] out@.contains_key(k)
                == src@.contains_key(k) by {
                assert(out@.contains_key(k) == out.key_seq().contains(k));
                assert(src@.contains_key(k) == src.key_seq().contains(k));
            }
        }
        out
    }

    /// A fresh wallet with the same content.
    pub fn dup(&self) -> (r: Wallet)
        requires
            self.wf(),
        ensures
            r.wf(),
            same_wallet(r, *self),
    {
        let balances_by_instruments = self.dup_balances();
        let r = Wallet {
            id: self.id.key_dup(),
            trader_id: crate::symbols::bytes_dup(&self.trader_id),
            total_unlocked_balance: self.total_unlocked_balance,
            margin_call_percent: self.margin_call_percent,
            current_loss_percent: self.current_loss_percent,
            prev_loss_percent: self.prev_loss_percent,
            estimate_asset: self.estimate_asset.key_dup(),
            balances_by_instruments,
            prices_by_assets: self.prices_by_assets.dup(),
            top_up_pnls_by_instruments: self.top_up_pnls_by_instruments.dup(),
            top_up_reserved_balance_by_instruments: self
                .top_up_reserved_balance_by_instruments
                .dup(),
            total_top_up_reserved_balance: self.total_top_up_reserved_balance,
        };
        proof {
            assert forall|k: Seq<u8>| #[trigger] r.balances_by_instruments@.contains_key(k)
                implies {
                let b = r.balances_by_instruments@[k];
                &&& b.instrument_symbol@ == k
                &&& b.asset_symbol@ + r.estimate_asset@ == k
                &&& r.prices_by_assets@.contains_key(b.asset_symbol@)
            } by {
                assert(self.balances_by_instruments@.contains_key(k));
                assert(same_balance(r.balances_by_instruments@[k],
                    self.balances_by_instruments@[k]));
            }
        }
        r
    }
}

} // verus!
