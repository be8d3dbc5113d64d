//! Exponential bonding curve: each item scales the spot price by `delta / WAD`.
use vstd::prelude::*;
use crate::fees::{add_fees, gross_up, lemma_part_nonneg, net_down, part_of, sub_fees};
use crate::fixed::{fits_u128, mul_div, mul_div_spec, WAD};
use crate::wide::{fits_u256, lemma_u256_canonical, u256_of, U256};
use crate::quote::{buy_failure, failed_buy, failed_sell, sell_failure, BuyInfo, CurveErrorCode, SellInfo};

verus! {

/// Lowest spot price an exponential curve may hold, 10^24.
pub const MIN_PRICE: u128 = 1_000_000_000_000_000_000_000_000;

/// `n` steps of `z ← z·x / base`, starting from `z = base`.
pub open spec fn fpow_spec(x: int, n: nat, base: int) -> int
    decreases n,
{
    if n == 0 {
        base
    } else if x == 0 {
        0
    } else {
        mul_div_spec(fpow_spec(x, (n - 1) as nat, base), x, base)
    }
}

/// Whether every step of `fpow_spec(x, n, base)` fits in 256 bits.
pub open spec fn fpow_fits(x: int, n: nat, base: int) -> bool
    decreases n,
{
    fits_u256(fpow_spec(x, n, base)) && (n == 0 || fpow_fits(x, (n - 1) as nat, base))
}

proof fn lemma_fpow_fits_prefix(x: int, i: nat, n: nat, base: int)
    requires
        i <= n,
        fpow_fits(x, n, base),
    ensures
        fpow_fits(x, i, base),
    decreases n,
{
    if i < n {
        lemma_fpow_fits_prefix(x, i, (n - 1) as nat, base);
    }
}

/// Above the base unit the power never falls below the base unit.
pub proof fn lemma_fpow_grows(x: int, n: nat, base: int)
    requires
        x >= base > 0,
    ensures
        fpow_spec(x, n, base) >= base,
    decreases n,
{
    if n > 0 {
        lemma_fpow_grows(x, (n - 1) as nat, base);
        let z = fpow_spec(x, (n - 1) as nat, base);
        assert((z * x) / base >= z) by (nonlinear_arith)
            requires
                z >= base > 0,
                x >= base,
        ;
    }
}

/// Above the base unit, at least one step gives at least `x`.
pub proof fn lemma_fpow_at_least(x: int, n: nat, base: int)
    requires
        x >= base > 0,
        n >= 1,
    ensures
        fpow_spec(x, n, base) >= x,
    decreases n,
{
    if n == 1 {
        assert(fpow_spec(x, 0, base) == base);
        assert((base * x) / base == x) by (nonlinear_arith)
            requires
                base > 0,
        ;
    } else {
        lemma_fpow_at_least(x, (n - 1) as nat, base);
        let z = fpow_spec(x, (n - 1) as nat, base);
        assert((z * x) / base >= z) by (nonlinear_arith)
            requires
                z >= x,
                x >= base > 0,
        ;
    }
}

/// Below the base unit the power stays within `[0, base]`, and every step fits.
pub proof fn lemma_fpow_shrinks(x: int, n: nat, base: int)
    requires
        0 <= x <= base,
        0 < base <= u128::MAX,
    ensures
        0 <= fpow_spec(x, n, base) <= base,
        fits_u128(fpow_spec(x, n, base)),
        fpow_fits(x, n, base),
    decreases n,
{
    assert(u128::MAX < crate::wide::two_256()) by (nonlinear_arith)
        requires
            crate::wide::two_256() == crate::fixed::two_128() * crate::fixed::two_128(),
            crate::fixed::two_128() == u128::MAX + 1,
    ;
    if n > 0 {
        lemma_fpow_shrinks(x, (n - 1) as nat, base);
        let z = fpow_spec(x, (n - 1) as nat, base);
        assert(0 <= (z * x) / base <= z) by (nonlinear_arith)
            requires
                0 <= z <= base,
                0 <= x <= base,
                base > 0,
        ;
    }
}

/// Repeated fixed-point multiplication: `base` when `n == 0`, zero when `x == 0` and
/// `n > 0`, else `n` steps of `z ← z·x / base`; `None` when a step does not fit in 256 bits.
pub fn fpow(x: u128, n: u64, base_unit: u128) -> (r: Option<U256>)
    requires
        x == 0 || base_unit > 0,
    ensures
        match r {
            Some(v) => fpow_fits(x as int, n as nat, base_unit as int)
                && v.value() == fpow_spec(x as int, n as nat, base_unit as int),
            None => !fpow_fits(x as int, n as nat, base_unit as int),
        },
{
    if x == 0 {
        proof {
            lemma_fpow_zero_fits(n as nat, base_unit as int);
        }
        if n == 0 {
            return Some(U256::from_u128(base_unit));
        }
        return Some(U256::from_u128(0));
    }
    let mut z = U256::from_u128(base_unit);
    proof {
        lemma_u256_canonical(z);
        lemma_fpow_zero_fits(0, base_unit as int);
    }
    let mut i: u64 = 0;
    while i < n
        invariant
            base_unit > 0,
            x > 0,
            i <= n,
            z.value() == fpow_spec(x as int, i as nat, base_unit as int),
            fpow_fits(x as int, i as nat, base_unit as int),
        decreases n - i,
    {
        match z.mul_div(x, base_unit) {
            Some(v) => {
                proof {
                    lemma_u256_canonical(v);
                }
                z = v;
                i = i + 1;
            },
            None => {
                proof {
                    assert(!fpow_fits(x as int, (i + 1) as nat, base_unit as int));
                    if fpow_fits(x as int, n as nat, base_unit as int) {
                        lemma_fpow_fits_prefix(x as int, (i + 1) as nat, n as nat, base_unit as int);
                    }
                }
                return None;
            },
        }
    }
    Some(z)
}

proof fn lemma_fpow_zero_fits(n: nat, base: int)
    requires
        0 <= base <= u128::MAX,
    ensures
        fpow_fits(0, n, base),
    decreases n,
{
    assert(u128::MAX < crate::wide::two_256()) by (nonlinear_arith)
        requires
            crate::wide::two_256() == crate::fixed::two_128() * crate::fixed::two_128(),
            crate::fixed::two_128() == u128::MAX + 1,
    ;
    if n > 0 {
        lemma_fpow_zero_fits((n - 1) as nat, base);
    }
}

/// `delta` must scale the price up.
pub fn validate_delta(delta: u128) -> (r: bool)
    ensures
        r == (delta > WAD),
{
    delta > WAD
}

/// The spot price must be at least `MIN_PRICE`.
pub fn validate_spot_price(new_spot_price: u128) -> (r: bool)
    ensures
        r == (new_spot_price >= MIN_PRICE),
{
    new_spot_price >= MIN_PRICE
}

/// `delta^n` in WAD units.
pub open spec fn buy_pow(delta: int, n: int) -> int {
    fpow_spec(delta, n as nat, WAD as int)
}

/// Spot price after buying `n` items: `spot · delta^n / WAD`.
pub open spec fn buy_new_spot(spot: int, delta: int, n: int) -> int {
    mul_div_spec(spot, buy_pow(delta, n), WAD as int)
}

/// Price of the first item bought: `spot · delta / WAD`.
pub open spec fn buy_first_price(spot: int, delta: int) -> int {
    mul_div_spec(spot, delta, WAD as int)
}

/// Geometric-series factor `(delta^n − WAD) · WAD / (delta − WAD)`.
pub open spec fn buy_series(delta: int, n: int) -> int {
    mul_div_spec(buy_pow(delta, n) - WAD, WAD as int, delta - WAD)
}

/// Undiscounted cost of buying `n` items.
pub open spec fn buy_gross(spot: int, delta: int, n: int) -> int {
    mul_div_spec(buy_first_price(spot, delta), buy_series(delta, n), WAD as int)
}

/// Whether an exponential buy quote can be given: the new spot price fits in 128 bits and
/// the power, the series factor and the price fit in 256 bits.
pub open spec fn buy_fits(spot: int, delta: int, n: int, fee: int, pfm: int) -> bool {
    &&& fpow_fits(delta, n as nat, WAD as int)
    &&& fits_u128(buy_new_spot(spot, delta, n))
    &&& fits_u256(buy_series(delta, n))
    &&& fits_u256(gross_up(buy_gross(spot, delta, n), fee, pfm))
}

/// The exponential buy quote.
pub open spec fn buy_quote(spot: u128, delta: u128, n: u64, fee: u128, pfm: u128) -> BuyInfo {
    let g = buy_gross(spot as int, delta as int, n as int);
    if n == 0 {
        failed_buy(CurveErrorCode::InvalidNumItem)
    } else if !buy_fits(spot as int, delta as int, n as int, fee as int, pfm as int) {
        failed_buy(CurveErrorCode::SpotPriceOverflow)
    } else {
        BuyInfo {
            error_code: CurveErrorCode::Success,
            new_spot_price: buy_new_spot(spot as int, delta as int, n as int) as u128,
            new_delta: delta,
            input_value: u256_of(gross_up(g, fee as int, pfm as int)),
            protocol_fee: u256_of(part_of(g, pfm as int)),
        }
    }
}

/// `WAD / delta` in WAD units.
pub open spec fn inv_delta(delta: int) -> int {
    (WAD * WAD) / delta
}

/// `(WAD / delta)^n` in WAD units.
pub open spec fn sell_pow(delta: int, n: int) -> int {
    fpow_spec(inv_delta(delta), n as nat, WAD as int)
}

/// Spot price after selling `n` items, before the floor.
pub open spec fn sell_raw_spot(spot: int, delta: int, n: int) -> int {
    mul_div_spec(spot, sell_pow(delta, n), WAD as int)
}

/// Spot price after selling `n` items, floored at `MIN_PRICE`.
pub open spec fn sell_new_spot(spot: int, delta: int, n: int) -> int {
    if sell_raw_spot(spot, delta, n) < MIN_PRICE {
        MIN_PRICE as int
    } else {
        sell_raw_spot(spot, delta, n)
    }
}

/// Undiscounted proceeds of selling `n` items.
pub open spec fn sell_gross(spot: int, delta: int, n: int) -> int {
    mul_div_spec(
        spot,
        mul_div_spec(WAD - sell_pow(delta, n), WAD as int, WAD - inv_delta(delta)),
        WAD as int,
    )
}

/// The exponential sell quote.
pub open spec fn sell_quote(spot: u128, delta: u128, n: u64, fee: u128, pfm: u128) -> SellInfo {
    let g = sell_gross(spot as int, delta as int, n as int);
    if n == 0 {
        failed_sell(CurveErrorCode::InvalidNumItem)
    } else {
        SellInfo {
            error_code: CurveErrorCode::Success,
            new_spot_price: sell_new_spot(spot as int, delta as int, n as int) as u128,
            new_delta: delta,
            output_value: u256_of(net_down(g, fee as int, pfm as int)),
            protocol_fee: u256_of(part_of(g, pfm as int)),
        }
    }
}

pub fn get_buy_info(
    spot_price: u128,
    delta: u128,
    num_items: u64,
    fee_multiplier: u128,
    protocol_fee_multiplier: u128,
) -> (r: BuyInfo)
    requires
        num_items > 0 ==> delta > WAD,
    ensures
        r == buy_quote(spot_price, delta, num_items, fee_multiplier, protocol_fee_multiplier),
{
    if num_items == 0 {
        return buy_failure(CurveErrorCode::InvalidNumItem);
    }
    let pow = match fpow(delta, num_items, WAD) {
        Some(v) => v,
        None => return buy_failure(CurveErrorCode::SpotPriceOverflow),
    };
    proof {
        lemma_fpow_grows(delta as int, num_items as nat, WAD as int);
        lemma_fpow_at_least(delta as int, num_items as nat, WAD as int);
    }
    let new_spot = match pow.mul_div(spot_price, WAD) {
        Some(v) => match v.as_u128() {
            Some(x) => x,
            None => return buy_failure(CurveErrorCode::SpotPriceOverflow),
        },
        None => {
            proof {
                assert(u128::MAX < crate::wide::two_256()) by (nonlinear_arith)
                    requires
                        crate::wide::two_256() == crate::fixed::two_128() * crate::fixed::two_128(),
                        crate::fixed::two_128() == u128::MAX + 1,
                ;
            }
            return buy_failure(CurveErrorCode::SpotPriceOverflow);
        },
    };
    let ghost p = pow.value();
    assert(spot_price * delta / (WAD as int) <= p * spot_price / (WAD as int)) by (nonlinear_arith)
        requires
            p >= delta,
            spot_price >= 0,
            delta >= 0,
    ;
    let first = match mul_div(spot_price, delta, WAD) {
        Some(v) => v,
        None => {
            proof {
                assert(false);
            }
            return buy_failure(CurveErrorCode::SpotPriceOverflow);
        },
    };
    let excess = pow.sub(&U256::from_u128(WAD));
    let series = match excess.mul_div(WAD, delta - WAD) {
        Some(v) => v,
        None => return buy_failure(CurveErrorCode::SpotPriceOverflow),
    };
    let ghost g = buy_gross(spot_price as int, delta as int, num_items as int);
    proof {
        assert(series.value() >= 0 && first >= 0);
        assert(g >= 0) by (nonlinear_arith)
            requires
                g == (first * series.value()) / (WAD as int),
                series.value() >= 0,
                first >= 0,
        ;
        lemma_part_nonneg(g, fee_multiplier as int);
        lemma_part_nonneg(g, protocol_fee_multiplier as int);
    }
    let gross = match series.mul_div(first, WAD) {
        Some(v) => v,
        None => return buy_failure(CurveErrorCode::SpotPriceOverflow),
    };
    match add_fees(gross, fee_multiplier, protocol_fee_multiplier) {
        Some((input_value, protocol_fee)) => {
            proof {
                lemma_u256_canonical(input_value);
                lemma_u256_canonical(protocol_fee);
            }
            BuyInfo {
                error_code: CurveErrorCode::Success,
                new_spot_price: new_spot,
                new_delta: delta,
                input_value,
                protocol_fee,
            }
        },
        None => buy_failure(CurveErrorCode::SpotPriceOverflow),
    }
}

pub fn get_sell_info(
    spot_price: u128,
    delta: u128,
    num_items: u64,
    fee_multiplier: u128,
    protocol_fee_multiplier: u128,
) -> (r: SellInfo)
    requires
        num_items > 0 ==> delta > WAD,
        num_items > 0 ==> fee_multiplier + protocol_fee_multiplier <= WAD,
    ensures
        r == sell_quote(spot_price, delta, num_items, fee_multiplier, protocol_fee_multiplier),
{
    if num_items == 0 {
        return sell_failure(CurveErrorCode::InvalidNumItem);
    }
    assert(WAD * WAD <= u128::MAX);
    let inv = WAD * WAD / delta;
    assert(inv < WAD) by (nonlinear_arith)
        requires
            inv == (WAD * WAD) / (delta as int),
            delta > WAD,
    ;
    proof {
        lemma_fpow_shrinks(inv as int, num_items as nat, WAD as int);
    }
    let inv_pow = match fpow(inv, num_items, WAD) {
        Some(v) => match v.as_u128() {
            Some(x) => x,
            None => {
                proof {
                    assert(false);
                }
                0
            },
        },
        None => {
            proof {
                assert(false);
            }
            0
        },
    };
    assert(spot_price * inv_pow / (WAD as int) <= spot_price) by (nonlinear_arith)
        requires
            0 <= inv_pow <= WAD,
    ;
    let raw = match mul_div(spot_price, inv_pow, WAD) {
        Some(v) => v,
        None => {
            proof {
                assert(false);
            }
            0
        },
    };
    let new_spot = if raw < MIN_PRICE { MIN_PRICE } else { raw };
    assert((WAD - inv_pow) * WAD <= WAD * WAD) by (nonlinear_arith)
        requires
            0 <= inv_pow <= WAD,
    ;
    let ratio = (WAD - inv_pow) * WAD / (WAD - inv);
    proof {
        assert(ratio * spot_price <= u128::MAX * u128::MAX) by (nonlinear_arith)
            requires
                0 <= ratio <= u128::MAX,
                0 <= spot_price <= u128::MAX,
        ;
        assert((ratio * spot_price) / (WAD as int) <= ratio * spot_price) by (nonlinear_arith)
            requires
                ratio * spot_price >= 0,
        ;
        assert(u128::MAX * u128::MAX < crate::wide::two_256()) by (nonlinear_arith)
            requires
                crate::wide::two_256() == crate::fixed::two_128() * crate::fixed::two_128(),
                crate::fixed::two_128() == u128::MAX + 1,
        ;
        assert((ratio * spot_price) / (WAD as int) >= 0) by (nonlinear_arith)
            requires
                ratio * spot_price >= 0,
        ;
    }
    let gross = match U256::from_u128(ratio).mul_div(spot_price, WAD) {
        Some(v) => v,
        None => {
            proof {
                assert(false);
            }
            U256::from_u128(0)
        },
    };
    assert(ratio * spot_price == spot_price * ratio) by (nonlinear_arith);
    assert(gross.value() == sell_gross(spot_price as int, delta as int, num_items as int));
    let (output_value, protocol_fee) = sub_fees(gross, fee_multiplier, protocol_fee_multiplier);
    proof {
        lemma_u256_canonical(output_value);
        lemma_u256_canonical(protocol_fee);
    }
    SellInfo {
        error_code: CurveErrorCode::Success,
        new_spot_price: new_spot,
        new_delta: delta,
        output_value,
        protocol_fee,
    }
}

} // verus!
