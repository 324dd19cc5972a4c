//! Shared monetary formulas: price lookup, margin percent, portfolio
//! valuation, and decimal rounding on fixed-point values.

use vstd::prelude::*;
use crate::collections::SymMap;
use crate::numeric::clamp64;
use crate::numeric::clamp_to_i64;
use crate::numeric::mul_div;
use crate::numeric::mul_div_spec;
use crate::numeric::percent_spec;
use crate::numeric::pow10;
use crate::numeric::pow10_exec;
use crate::numeric::sat_add;
use crate::numeric::sat_add_spec;
use crate::numeric::tdiv;
use crate::numeric::tdiv_i128;
use crate::numeric::HUNDRED_PERCENT;
use crate::numeric::SCALE;
use crate::numeric::SCALE_DECIMALS;
use crate::orders::OrderSide;
use crate::positions::BidAsk;
use crate::symbols::AssetSymbol;
use crate::symbols::InstrumentSymbol;

verus! {

use vstd::arithmetic::div_mod::lemma_fundamental_div_mod_converse_div;
use vstd::arithmetic::div_mod::lemma_div_pos_is_pos;
use vstd::arithmetic::div_mod::lemma_remainder_lower;
use crate::numeric::lemma_tdiv_bounds;
use crate::numeric::lemma_tdiv_times;

/// The close price for `instrument` out of a quote cache that must hold it.
pub fn get_close_price(
    bidasks: &SymMap<InstrumentSymbol, BidAsk>,
    instrument: &InstrumentSymbol,
    side: &OrderSide,
) -> (r: i64)
    requires
        bidasks.wf(),
        bidasks@.contains_key(instrument@),
    ensures
        r == BidAsk::spec_close_price(bidasks@[instrument@], *side),
{
    let q = bidasks.get(instrument);
    match q {
        Some(q) => q.get_close_price(side),
        None => 0,  // unreachable: the quote is present by precondition
    }
}

/// The open price for `instrument` out of a quote cache that must hold it.
pub fn get_open_price(
    bidasks: &SymMap<InstrumentSymbol, BidAsk>,
    instrument: &InstrumentSymbol,
    side: &OrderSide,
) -> (r: i64)
    requires
        bidasks.wf(),
        bidasks@.contains_key(instrument@),
    ensures
        r == BidAsk::spec_open_price(bidasks@[instrument@], *side),
{
    let q = bidasks.get(instrument);
    match q {
        Some(q) => q.get_open_price(side),
        None => 0,  // unreachable: the quote is present by precondition
    }
}

/// Margin percent: `(pnl + invest) / invest * 100`, in fixed-point percent
/// units, with the saturating-arithmetic model stated exactly.
pub fn calculate_margin_percent(invest_amount: i64, pnl: i64) -> (r: i64)
    requires
        invest_amount > 0,
    ensures
        r == percent_spec(
            invest_amount as int,
            sat_add_spec(pnl as int, invest_amount as int),
        ),
{
    let margin = sat_add(pnl, invest_amount);
    mul_div(margin, HUNDRED_PERCENT, invest_amount)
}

/// What fraction `number` is of `from_number`, in fixed-point percent units.
pub fn calculate_percent(from_number: i64, number: i64) -> (r: i64)
    requires
        from_number > 0,
    ensures
        r == percent_spec(from_number as int, number as int),
{
    mul_div(number, HUNDRED_PERCENT, from_number)
}

/// The value of the amounts listed by `keys`, each multiplied by its price,
/// summed left to right with saturation. `keys` picks both the order of
/// summation and which entries count.
pub open spec fn spec_total_amount(
    keys: Seq<Seq<u8>>,
    amounts: Map<Seq<u8>, i64>,
    prices: Map<Seq<u8>, i64>,
) -> int
    decreases keys.len(),
{
    if keys.len() == 0 {
        0
    } else {
        sat_add_spec(
            spec_total_amount(keys.drop_last(), amounts, prices),
            mul_div_spec(amounts[keys.last()] as int, prices[keys.last()] as int, SCALE as int),
        )
    }
}

/// Value the asset amounts at the given prices: `Σ amount[a] * price[a]`,
/// summed in stored order. Every listed asset must have a price.
pub fn calculate_total_amount(
    asset_amounts: &SymMap<AssetSymbol, i64>,
    asset_prices: &SymMap<AssetSymbol, i64>,
) -> (r: i64)
    requires
        asset_amounts.wf(),
        asset_prices.wf(),
        forall|k: Seq<u8>| asset_amounts@.contains_key(k) ==> asset_prices@.contains_key(k),
    ensures
        r == spec_total_amount(asset_amounts.key_seq(), asset_amounts@, asset_prices@),
{
    let n = asset_amounts.len();
    let mut total: i64 = 0;
    let mut i: usize = 0;
    proof {
        assert(asset_amounts.key_seq().take(0) =~= Seq::<Seq<u8>>::empty());
    }
    while i < n
        invariant
            asset_amounts.wf(),
            asset_prices.wf(),
            forall|k: Seq<u8>| asset_amounts@.contains_key(k) ==> asset_prices@.contains_key(k),
            i <= n,
            n == asset_amounts.spec_len(),
            total == spec_total_amount(
                asset_amounts.key_seq().take(i as int),
                asset_amounts@,
                asset_prices@,
            ),
        decreases n - i,
    {
        let asset = asset_amounts.key_at(i);
        let amount = *asset_amounts.val_at(i);
        let price = asset_prices.get(asset);
        let p: i64 = match price {
            Some(p) => *p,
            None => 0,  // unreachable: every listed asset has a price
        };
        let term = mul_div(amount, p, SCALE);
        proof {
            let t = asset_amounts.key_seq().take(i + 1);
            assert(t.drop_last() =~= asset_amounts.key_seq().take(i as int));
            assert(t.last() == asset_amounts.key_seq()[i as int]);
        }
        total = sat_add(total, term);
        i = i + 1;
    }
    proof {
        assert(asset_amounts.key_seq().take(n as int) =~= asset_amounts.key_seq());
    }
    total
}

/// Truncate toward negative infinity to `k` decimal digits, in fixed-point.
pub open spec fn floor_spec(x: int, k: nat) -> int {
    if k >= SCALE_DECIMALS {
        x
    } else {
        let m = pow10((SCALE_DECIMALS - k) as nat);
        clamp64((x / m) * m)
    }
}

/// Truncate toward positive infinity to `k` decimal digits, in fixed-point.
pub open spec fn ceil_spec(x: int, k: nat) -> int {
    if k >= SCALE_DECIMALS {
        x
    } else {
        let m = pow10((SCALE_DECIMALS - k) as nat);
        clamp64(-(((-x) / m) * m))
    }
}

/// Rounding half away from zero to `k` decimal digits, in fixed-point.
pub open spec fn round_spec(x: int, k: nat) -> int {
    if k >= SCALE_DECIMALS {
        x
    } else {
        let m = pow10((SCALE_DECIMALS - k) as nat);
        let h = m / 2;
        if x >= 0 {
            clamp64(tdiv(x + h, m) * m)
        } else {
            clamp64(-(tdiv(-x + h, m) * m))
        }
    }
}

/// Round a fixed-point value down (toward negative infinity) to `precision`
/// decimal digits.
pub fn floor(x: i64, precision: u32) -> (r: i64)
    ensures
        r == floor_spec(x as int, precision as nat),
{
    if precision >= SCALE_DECIMALS {
        return x;
    }
    let m64 = pow10_exec(SCALE_DECIMALS - precision);
    let m: i128 = m64 as i128;
    let xi: i128 = x as i128;
    let t = tdiv_i128(xi, m);
    proof {
        lemma_tdiv_bounds(xi as int, m as int);
        lemma_tdiv_times(xi as int, m as int);
    }
    if x >= 0 {
        clamp_to_i64(t * m)
    } else {
        let rem = xi - t * m;
        if rem == 0 {
            proof {
                lemma_fundamental_div_mod_converse_div(xi as int, m as int, t as int, 0);
            }
            clamp_to_i64(t * m)
        } else {
            proof {
                assert(-(m as int) < rem < 0);
                assert((t as int - 1) * (m as int) == t as int * (m as int) - m as int)
                    by (nonlinear_arith);
                lemma_fundamental_div_mod_converse_div(
                    xi as int,
                    m as int,
                    t as int - 1,
                    rem as int + m as int,
                );
            }
            clamp_to_i64((t - 1) * m)
        }
    }
}

/// Round a fixed-point value up (toward positive infinity) to `precision`
/// decimal digits.
pub fn ceil(x: i64, precision: u32) -> (r: i64)
    ensures
        r == ceil_spec(x as int, precision as nat),
{
    if precision >= SCALE_DECIMALS {
        return x;
    }
    let m64 = pow10_exec(SCALE_DECIMALS - precision);
    let m: i128 = m64 as i128;
    let xi: i128 = x as i128;
    let t = tdiv_i128(xi, m);
    proof {
        lemma_tdiv_bounds(xi as int, m as int);
        lemma_tdiv_times(xi as int, m as int);
    }
    if x <= 0 {
        proof {
            if xi == 0 {
                lemma_div_pos_is_pos(0, m as int);
                vstd::arithmetic::div_mod::lemma_div_nonincreasing(0, m as int);
                assert(t == 0);
                assert((0int / (m as int)) * (m as int) == 0)
                    by (nonlinear_arith)
                    requires
                        0int / (m as int) == 0,
                ;
            }
        }
        clamp_to_i64(t * m)
    } else {
        let rem = xi - t * m;
        if rem == 0 {
            proof {
                vstd::arithmetic::mul::lemma_mul_unary_negation(t as int, m as int);
                lemma_fundamental_div_mod_converse_div(-(xi as int), m as int, -(t as int), 0);
                vstd::arithmetic::mul::lemma_mul_unary_negation(
                    (-(xi as int)) / (m as int),
                    m as int,
                );
            }
            clamp_to_i64(t * m)
        } else {
            proof {
                assert(0 < rem < m as int);
                assert((-(t as int) - 1) * (m as int) == -(t as int * (m as int)) - m as int)
                    by (nonlinear_arith);
                lemma_fundamental_div_mod_converse_div(
                    -(xi as int),
                    m as int,
                    -(t as int) - 1,
                    m as int - rem as int,
                );
                assert(((-(xi as int)) / (m as int)) * (m as int) == (-(t as int) - 1) * (m as int))
                    by (nonlinear_arith)
                    requires
                        (-(xi as int)) / (m as int) == -(t as int) - 1,
                ;
                assert((t as int + 1) * (m as int) == t as int * (m as int) + m as int)
                    by (nonlinear_arith);
            }
            clamp_to_i64((t + 1) * m)
        }
    }
}

/// Round a fixed-point value to `precision` decimal digits, half away from
/// zero (the rule applied to a closed position's scalar profit-and-loss
/// when a `pnl_accuracy` is configured).
pub fn round(x: i64, precision: u32) -> (r: i64)
    ensures
        r == round_spec(x as int, precision as nat),
{
    if precision >= SCALE_DECIMALS {
        return x;
    }
    let m64 = pow10_exec(SCALE_DECIMALS - precision);
    let m: i128 = m64 as i128;
    let h: i128 = m / 2;
    if x >= 0 {
        let a: i128 = x as i128 + h;
        let q = tdiv_i128(a, m);
        proof {
            lemma_div_pos_is_pos(a as int, m as int);
            lemma_remainder_lower(a as int, m as int);
        }
        clamp_to_i64(q * m)
    } else {
        let a: i128 = -(x as i128) + h;
        let q = tdiv_i128(a, m);
        proof {
            lemma_div_pos_is_pos(a as int, m as int);
            lemma_remainder_lower(a as int, m as int);
        }
        clamp_to_i64(-(q * m))
    }
}

} // verus!
