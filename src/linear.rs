//! Linear bonding curve: each item moves the spot price by `delta`.
use vstd::prelude::*;
use crate::fees::{add_fees, gross_up, lemma_part_nonneg, net_down, part_of, sub_fees};
use crate::fixed::{fits_u128, WAD};
use crate::wide::{fits_u256, lemma_u256_canonical, u256_of, U256};
use crate::quote::{buy_failure, failed_buy, failed_sell, sell_failure, BuyInfo, CurveErrorCode, SellInfo};

verus! {

/// Undiscounted cost of buying `n` items: `n·(spot + delta) + n·(n−1)·delta / 2`.
pub open spec fn buy_gross(spot: int, delta: int, n: int) -> int {
    n * (spot + delta) + (n * (n - 1) * delta) / 2
}

/// Whether a linear buy of `n` items can be quoted: the new spot price fits in 128 bits
/// and the price in 256 bits.
pub open spec fn buy_fits(spot: int, delta: int, n: int, fee: int, pfm: int) -> bool {
    fits_u128(spot + delta * n) && fits_u256(gross_up(buy_gross(spot, delta, n), fee, pfm))
}

/// The linear buy quote.
pub open spec fn buy_quote(spot: u128, delta: u128, n: u64, fee: u128, pfm: u128) -> BuyInfo {
    let g = buy_gross(spot as int, delta as int, n as int);
    if n == 0 {
        failed_buy(CurveErrorCode::InvalidNumItem)
    } else if !buy_fits(spot as int, delta as int, n as int, fee as int, pfm as int) {
        failed_buy(CurveErrorCode::SpotPriceOverflow)
    } else {
        BuyInfo {
            error_code: CurveErrorCode::Success,
            new_spot_price: (spot + delta * n) as u128,
            new_delta: delta,
            input_value: u256_of(gross_up(g, fee as int, pfm as int)),
            protocol_fee: u256_of(part_of(g, pfm as int)),
        }
    }
}

/// Whether selling `n` items runs the price below zero, so that fewer items are priced.
pub open spec fn sell_clamped(spot: int, delta: int, n: int) -> bool {
    spot < delta * n
}

/// Number of items a sell of `n` is priced on.
pub open spec fn sell_count(spot: int, delta: int, n: int) -> int {
    if sell_clamped(spot, delta, n) {
        spot / delta + 1
    } else {
        n
    }
}

/// Spot price after selling `n` items.
pub open spec fn sell_new_spot(spot: int, delta: int, n: int) -> int {
    if sell_clamped(spot, delta, n) {
        0
    } else {
        spot - delta * n
    }
}

/// Undiscounted proceeds of selling `m` items: `m·spot − m·(m−1)·delta / 2`.
pub open spec fn sell_gross(spot: int, delta: int, m: int) -> int {
    m * spot - (m * (m - 1) * delta) / 2
}

/// The linear sell quote.
pub open spec fn sell_quote(spot: u128, delta: u128, n: u64, fee: u128, pfm: u128) -> SellInfo {
    let m = sell_count(spot as int, delta as int, n as int);
    let g = sell_gross(spot as int, delta as int, m);
    if n == 0 {
        failed_sell(CurveErrorCode::InvalidNumItem)
    } else {
        SellInfo {
            error_code: CurveErrorCode::Success,
            new_spot_price: sell_new_spot(spot as int, delta as int, n as int) as u128,
            new_delta: delta,
            output_value: u256_of(net_down(g, fee as int, pfm as int)),
            protocol_fee: u256_of(part_of(g, pfm as int)),
        }
    }
}

/// Every delta is valid on a linear curve.
pub fn validate_delta(_delta: u128) -> (r: bool)
    ensures
        r,
{
    true
}

/// Every spot price is valid on a linear curve.
pub fn validate_spot_price(_new_spot_price: u128) -> (r: bool)
    ensures
        r,
{
    true
}

proof fn lemma_pairs_fit(n: int)
    requires
        1 <= n <= u64::MAX,
    ensures
        0 <= n * (n - 1) <= u128::MAX,
{
    assert(0 <= n * (n - 1) <= u128::MAX) by (nonlinear_arith)
        requires
            1 <= n <= u64::MAX,
    ;
}

pub fn get_buy_info(
    spot_price: u128,
    delta: u128,
    num_items: u64,
    fee_multiplier: u128,
    protocol_fee_multiplier: u128,
) -> (r: BuyInfo)
    ensures
        r == buy_quote(spot_price, delta, num_items, fee_multiplier, protocol_fee_multiplier),
{
    if num_items == 0 {
        return buy_failure(CurveErrorCode::InvalidNumItem);
    }
    let n = num_items as u128;
    let ghost g = buy_gross(spot_price as int, delta as int, n as int);
    let ghost total = gross_up(g, fee_multiplier as int, protocol_fee_multiplier as int);
    proof {
        lemma_pairs_fit(n as int);
        assert(n * (n - 1) * delta >= 0) by (nonlinear_arith)
            requires
                n >= 1,
        ;
        assert(n * (spot_price + delta) >= 0) by (nonlinear_arith)
            requires
                n >= 1,
        ;
        assert(g >= n * (spot_price + delta));
        lemma_part_nonneg(g, fee_multiplier as int);
        lemma_part_nonneg(g, protocol_fee_multiplier as int);
        assert(total >= g);
    }
    let step = match delta.checked_mul(n) {
        Some(v) => v,
        None => return buy_failure(CurveErrorCode::SpotPriceOverflow),
    };
    let new_spot = match spot_price.checked_add(step) {
        Some(v) => v,
        None => return buy_failure(CurveErrorCode::SpotPriceOverflow),
    };
    assert(delta <= delta * n) by (nonlinear_arith)
        requires
            n >= 1,
    ;
    let buy_spot = spot_price + delta;
    let first = U256::wide_mul(n, buy_spot);
    let pairs = n * (n - 1);
    let series = match U256::from_u128(pairs).mul_div(delta, 2) {
        Some(v) => v,
        None => return buy_failure(CurveErrorCode::SpotPriceOverflow),
    };
    let gross = match first.checked_add(&series) {
        Some(v) => v,
        None => return buy_failure(CurveErrorCode::SpotPriceOverflow),
    };
    assert(gross.value() == g);
    match add_fees(gross, fee_multiplier, protocol_fee_multiplier) {
        Some((input_value, protocol_fee)) => {
            proof {
                lemma_u256_canonical(input_value);
                lemma_u256_canonical(protocol_fee);
            }
            BuyInfo {
                error_code: CurveErrorCode::Success,
                new_spot_price: new_spot,
                new_delta: delta,
                input_value,
                protocol_fee,
            }
        },
        None => buy_failure(CurveErrorCode::SpotPriceOverflow),
    }
}

pub fn get_sell_info(
    spot_price: u128,
    delta: u128,
    num_items: u64,
    fee_multiplier: u128,
    protocol_fee_multiplier: u128,
) -> (r: SellInfo)
    requires
        num_items > 0 ==> fee_multiplier + protocol_fee_multiplier <= WAD,
    ensures
        r == sell_quote(spot_price, delta, num_items, fee_multiplier, protocol_fee_multiplier),
{
    if num_items == 0 {
        return sell_failure(CurveErrorCode::InvalidNumItem);
    }
    let n = num_items as u128;
    let clamped = match delta.checked_mul(n) {
        Some(total_decrease) => spot_price < total_decrease,
        None => true,
    };
    let m: u128;
    let new_spot: u128;
    if clamped {
        assert(delta > 0) by (nonlinear_arith)
            requires
                spot_price < delta * n,
        ;
        let q = spot_price / delta;
        assert(q < n) by (nonlinear_arith)
            requires
                delta > 0,
                q == spot_price / delta,
                spot_price < delta * n,
        ;
        m = q + 1;
        new_spot = 0;
        assert((m - 1) * delta <= spot_price) by (nonlinear_arith)
            requires
                delta > 0,
                m - 1 == spot_price / delta,
        ;
        assert(m <= n) by (nonlinear_arith)
            requires
                delta > 0,
                m - 1 == spot_price / delta,
                spot_price < delta * n,
                (m - 1) * delta <= spot_price,
        ;
    } else {
        m = n;
        new_spot = spot_price - delta * n;
        assert((m - 1) * delta <= spot_price) by (nonlinear_arith)
            requires
                m == n,
                n >= 1,
                delta * n <= spot_price,
        ;
    }
    assert(m == sell_count(spot_price as int, delta as int, n as int));
    assert(m >= 1);
    let first = U256::wide_mul(m, spot_price);
    proof {
        lemma_pairs_fit(m as int);
        assert((m * (m - 1) * delta) / 2 <= m * spot_price) by (nonlinear_arith)
            requires
                (m - 1) * delta <= spot_price,
                m >= 1,
        ;
        assert(m * (m - 1) * delta >= 0) by (nonlinear_arith)
            requires
                m >= 1,
        ;
        lemma_u256_canonical(first);
    }
    let pairs = m * (m - 1);
    let series = match U256::from_u128(pairs).mul_div(delta, 2) {
        Some(v) => v,
        None => {
            proof {
                assert(false);
            }
            U256::from_u128(0)
        },
    };
    let gross = first.sub(&series);
    let (output_value, protocol_fee) = sub_fees(gross, fee_multiplier, protocol_fee_multiplier);
    proof {
        lemma_u256_canonical(output_value);
        lemma_u256_canonical(protocol_fee);
    }
    SellInfo {
        error_code: CurveErrorCode::Success,
        new_spot_price: new_spot,
        new_delta: delta,
        output_value,
        protocol_fee,
    }
}

} // verus!
