//! Laws relating the curve kernels and pool operations to one another.
use vstd::prelude::*;
use crate::exponential;
use crate::fees::{gross_up, part_of};
use crate::fixed::WAD;
use crate::wide::lemma_u256_of_value;
use crate::linear;
use crate::pair::{burn_coin, burn_count, paid_fee, paid_out, Pair};
use crate::quote::CurveErrorCode;

verus! {

proof fn lemma_pairs_even(n: int)
    requires
        n >= 0,
    ensures
        (n * (n - 1)) % 2 == 0,
    decreases n,
{
    if n >= 2 {
        lemma_pairs_even(n - 2);
        assert(n * (n - 1) == (n - 2) * (n - 3) + 2 * (2 * n - 3)) by (nonlinear_arith);
    } else {
        assert(n * (n - 1) == 0) by (nonlinear_arith)
            requires
                0 <= n <= 1,
        ;
    }
}

/// On a linear curve without fees, buying `n` items and selling the same `n` back puts the
/// curve where it started and costs nothing: the sale pays exactly what the buy charged.
pub proof fn lemma_linear_round_trip(spot: u128, delta: u128, n: u64)
    requires
        n > 0,
        linear::buy_quote(spot, delta, n, 0, 0).error_code == CurveErrorCode::Success,
    ensures
        ({
            let b = linear::buy_quote(spot, delta, n, 0, 0);
            let s = linear::sell_quote(b.new_spot_price, b.new_delta, n, 0, 0);
            &&& s.error_code == CurveErrorCode::Success
            &&& s.new_spot_price == spot
            &&& s.new_delta == delta
            &&& s.output_value == b.input_value
        }),
{
    let b = linear::buy_quote(spot, delta, n, 0, 0);
    let ni = n as int;
    let up = spot + delta * ni;
    assert(b.new_spot_price == up);
    assert(!linear::sell_clamped(up, delta as int, ni));
    let x = ni * (ni - 1) * delta;
    lemma_pairs_even(ni);
    let k = (ni * (ni - 1)) / 2;
    assert(ni * (ni - 1) == 2 * k);
    let m = k * delta;
    assert(x == 2 * m) by (nonlinear_arith)
        requires
            ni * (ni - 1) == 2 * k,
            x == ni * (ni - 1) * delta,
            m == k * delta,
    ;
    assert(x % 2 == 0);
    assert(x / 2 == m);
    assert(ni * up == ni * (spot + delta) + x) by (nonlinear_arith)
        requires
            up == spot + delta * ni,
            x == ni * (ni - 1) * delta,
    ;
    let g_buy = linear::buy_gross(spot as int, delta as int, ni);
    let g_sell = linear::sell_gross(up, delta as int, ni);
    assert(g_buy == g_sell);
    assert(part_of(g_buy, 0) == 0);
}

/// Cost of buying is non-decreasing in the number of items, at a fixed curve state and fees,
/// on a linear curve: buying `n <= m` items costs no more than buying `m`.
pub proof fn lemma_linear_buy_monotone(spot: u128, delta: u128, n: u64, m: u64, fee: u128, pfm: u128)
    requires
        0 < n <= m,
        linear::buy_quote(spot, delta, n, fee, pfm).error_code == CurveErrorCode::Success,
        linear::buy_quote(spot, delta, m, fee, pfm).error_code == CurveErrorCode::Success,
    ensures
        linear::buy_quote(spot, delta, n, fee, pfm).input_value.value()
            <= linear::buy_quote(spot, delta, m, fee, pfm).input_value.value(),
{
    let ni = n as int;
    let mi = m as int;
    let g1 = linear::buy_gross(spot as int, delta as int, ni);
    let g2 = linear::buy_gross(spot as int, delta as int, mi);
    assert(ni * (spot + delta) <= mi * (spot + delta)) by (nonlinear_arith)
        requires
            1 <= ni <= mi,
            spot >= 0,
            delta >= 0,
    ;
    assert(ni * (ni - 1) * delta <= mi * (mi - 1) * delta) by (nonlinear_arith)
        requires
            1 <= ni <= mi,
            delta >= 0,
    ;
    assert((ni * (ni - 1) * delta) / 2 <= (mi * (mi - 1) * delta) / 2) by (nonlinear_arith)
        requires
            ni * (ni - 1) * delta <= mi * (mi - 1) * delta,
    ;
    assert(g1 <= g2);
    assert(g1 >= 0) by (nonlinear_arith)
        requires
            g1 == ni * (spot + delta) + (ni * (ni - 1) * delta) / 2,
            ni >= 1,
            spot >= 0,
            delta >= 0,
    ;
    lemma_gross_up_monotone(g1, g2, fee as int, pfm as int);
    lemma_u256_of_value(gross_up(g1, fee as int, pfm as int));
    lemma_u256_of_value(gross_up(g2, fee as int, pfm as int));
}

/// The power `delta^n` in WAD units does not fall as `n` grows.
proof fn lemma_pow_monotone(d: int, n: nat, m: nat)
    requires
        d > WAD,
        n <= m,
    ensures
        exponential::fpow_spec(d, n, WAD as int) <= exponential::fpow_spec(d, m, WAD as int),
    decreases m,
{
    if n < m {
        lemma_pow_monotone(d, n, (m - 1) as nat);
        exponential::lemma_fpow_grows(d, (m - 1) as nat, WAD as int);
        let z = exponential::fpow_spec(d, (m - 1) as nat, WAD as int);
        let w = WAD as int;
        assert(z <= z * d / w) by (nonlinear_arith)
            requires
                z >= w,
                d > w,
                w > 0,
        ;
    }
}

/// Cost of buying is non-decreasing in the number of items on an exponential curve: buying
/// `n <= m` items costs no more than buying `m`.
pub proof fn lemma_exponential_buy_monotone(spot: u128, delta: u128, n: u64, m: u64, fee: u128, pfm: u128)
    requires
        delta > WAD,
        0 < n <= m,
        exponential::buy_quote(spot, delta, n, fee, pfm).error_code == CurveErrorCode::Success,
        exponential::buy_quote(spot, delta, m, fee, pfm).error_code == CurveErrorCode::Success,
    ensures
        exponential::buy_quote(spot, delta, n, fee, pfm).input_value.value()
            <= exponential::buy_quote(spot, delta, m, fee, pfm).input_value.value(),
{
    let d = delta as int;
    let w = WAD as int;
    let ni = n as int;
    let mi = m as int;
    exponential::lemma_fpow_grows(d, n as nat, w);
    lemma_pow_monotone(d, n as nat, m as nat);
    let pow_n = exponential::buy_pow(d, ni);
    let pow_next = exponential::buy_pow(d, mi);
    assert(pow_n <= pow_next);
    let s1 = exponential::buy_series(d, ni);
    let s2 = exponential::buy_series(d, mi);
    assert(0 <= s1 <= s2) by (nonlinear_arith)
        requires
            s1 == (pow_n - w) * w / (d - w),
            s2 == (pow_next - w) * w / (d - w),
            w <= pow_n <= pow_next,
            d > w,
            w > 0,
    ;
    let f = exponential::buy_first_price(spot as int, d);
    assert(f >= 0) by (nonlinear_arith)
        requires
            f == spot * d / w,
            spot >= 0,
            d >= 0,
            w > 0,
    ;
    let g1 = exponential::buy_gross(spot as int, d, ni);
    let g2 = exponential::buy_gross(spot as int, d, mi);
    assert(0 <= g1 <= g2) by (nonlinear_arith)
        requires
            g1 == f * s1 / w,
            g2 == f * s2 / w,
            0 <= s1 <= s2,
            f >= 0,
            w > 0,
    ;
    lemma_gross_up_monotone(g1, g2, fee as int, pfm as int);
    lemma_u256_of_value(gross_up(g1, fee as int, pfm as int));
    lemma_u256_of_value(gross_up(g2, fee as int, pfm as int));
}

/// Adding fees keeps the order of two amounts.
pub proof fn lemma_gross_up_monotone(a: int, b: int, fee: int, pfm: int)
    requires
        0 <= a <= b,
        fee >= 0,
        pfm >= 0,
    ensures
        gross_up(a, fee, pfm) <= gross_up(b, fee, pfm),
{
    assert(a * fee / (WAD as int) <= b * fee / (WAD as int)) by (nonlinear_arith)
        requires
            0 <= a <= b,
            fee >= 0,
    ;
    assert(a * pfm / (WAD as int) <= b * pfm / (WAD as int)) by (nonlinear_arith)
        requires
            0 <= a <= b,
            pfm >= 0,
    ;
}

/// An exponential sale never leaves the spot price below `MIN_PRICE`.
pub proof fn lemma_exponential_sell_floor(spot: u128, delta: u128, n: u64, fee: u128, pfm: u128)
    requires
        delta > WAD,
        exponential::sell_quote(spot, delta, n, fee, pfm).error_code == CurveErrorCode::Success,
    ensures
        exponential::sell_quote(spot, delta, n, fee, pfm).new_spot_price >= exponential::MIN_PRICE,
        exponential::sell_raw_spot(spot as int, delta as int, n as int) < exponential::MIN_PRICE
            ==> exponential::sell_quote(spot, delta, n, fee, pfm).new_spot_price == exponential::MIN_PRICE,
{
    let d = delta as int;
    let inv = exponential::inv_delta(d);
    assert(0 <= inv < WAD) by (nonlinear_arith)
        requires
            inv == (WAD * WAD) / d,
            d > WAD,
    ;
    exponential::lemma_fpow_shrinks(inv, n as nat, WAD as int);
    let ipow = exponential::sell_pow(d, n as int);
    assert(spot * ipow / (WAD as int) <= spot) by (nonlinear_arith)
        requires
            0 <= ipow <= WAD,
            spot >= 0,
    ;
}

/// A linear sale that would take the price below zero prices only `spot / delta + 1` items
/// and leaves the spot price at zero.
pub proof fn lemma_linear_sell_clamp(spot: u128, delta: u128, n: u64)
    requires
        spot < delta * n,
    ensures
        linear::sell_new_spot(spot as int, delta as int, n as int) == 0,
        linear::sell_count(spot as int, delta as int, n as int) == spot / delta + 1,
{
}

/// With `x == 0` the power is `base` for `n == 0` and zero otherwise.
pub proof fn lemma_fpow_zero(n: nat, base: int)
    ensures
        exponential::fpow_spec(0, n, base) == if n == 0 { base } else { 0 },
{
}

/// After a sale the pool's coin falls by at most the quoted output plus fee; it is emptied
/// when it held less than that, and otherwise falls by exactly that.
pub proof fn lemma_sell_saturation(bal: u128, out: u128, pf: u128)
    ensures
        ({
            let after = bal - paid_out(bal as int, out as int) - paid_fee(bal as int, out as int, pf as int);
            &&& 0 <= after <= bal
            &&& bal - after <= out + pf
            &&& bal < out + pf ==> after == 0
            &&& bal >= out + pf ==> after == bal - out - pf
        }),
{
}

/// What a burn hands out depends on the share amount and the pool's inventory, curve and
/// supply, not on who holds the shares: shares moved to another account redeem the same.
pub proof fn lemma_burn_ignores_holder(p: Pair, q: Pair, lp: int, pfm: u128)
    requires
        q.held() == p.held(),
        q.spot_price == p.spot_price,
        q.delta == p.delta,
        q.fee == p.fee,
        q.curve == p.curve,
        q.lp_supply == p.lp_supply,
    ensures
        burn_coin(q, lp, pfm) == burn_coin(p, lp, pfm),
        burn_count(q.held().len() as int, lp, q.lp_supply as int)
            == burn_count(p.held().len() as int, lp, p.lp_supply as int),
{
}

} // verus!
