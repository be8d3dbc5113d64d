use nftamm::curve::{BondingCurve, Curve};
use nftamm::exponential::{self, fpow, MIN_PRICE};
use nftamm::fixed::{mul_div, WAD};
use nftamm::linear;
use nftamm::quote::CurveErrorCode;
use nftamm::wide::U256;

fn w(x: u128) -> U256 {
    U256::from_u128(x)
}

#[test]
fn test_fpow() {
    assert_eq!(fpow(4, 8, 2), Some(U256::from_u128(512)));
}

#[test]
fn fpow_of_zero() {
    assert_eq!(fpow(0, 0, 7), Some(w(7)));
    assert_eq!(fpow(0, 3, 7), Some(w(0)));
    assert_eq!(fpow(0, 0, 0), Some(w(0)));
    assert_eq!(fpow(0, 2, 0), Some(w(0)));
}

#[test]
fn fpow_overflow_is_reported() {
    assert_eq!(fpow(2 * WAD, 200, WAD), None);
}

#[test]
fn mul_div_is_exact_on_wide_products() {
    assert_eq!(mul_div(u128::MAX, u128::MAX, u128::MAX), Some(u128::MAX));
    assert_eq!(mul_div(1u128 << 127, 4, 2), None);
    assert_eq!(mul_div(1u128 << 127, 4, 4), Some(1u128 << 127));
    assert_eq!(mul_div(10, 7, 3), Some(23));
}

#[test]
fn linear_buy_quote_values() {
    let q = linear::get_buy_info(100, 10, 3, 0, WAD / 10);
    assert_eq!(q.error_code, CurveErrorCode::Success);
    assert_eq!(q.new_spot_price, 130);
    assert_eq!(q.new_delta, 10);
    assert_eq!(q.protocol_fee, w(36));
    assert_eq!(q.input_value, w(396));
}

#[test]
fn linear_buy_with_trade_fee() {
    let q = linear::get_buy_info(100, 10, 1, WAD / 100, 0);
    assert_eq!(q.input_value, w(111));
    assert_eq!(q.protocol_fee, w(0));
}

#[test]
fn linear_buy_zero_items() {
    let q = linear::get_buy_info(100, 10, 0, 0, 0);
    assert_eq!(q.error_code, CurveErrorCode::InvalidNumItem);
    assert_eq!(q.input_value, w(0));
}

#[test]
fn linear_buy_overflow() {
    let q = linear::get_buy_info(u128::MAX - 5, 10, 1, 0, 0);
    assert_eq!(q.error_code, CurveErrorCode::SpotPriceOverflow);
}

#[test]
fn linear_sell_quote_values() {
    let q = linear::get_sell_info(130, 10, 3, 0, WAD / 10);
    assert_eq!(q.error_code, CurveErrorCode::Success);
    assert_eq!(q.new_spot_price, 100);
    // 3 * 130 - 3 * 2 * 10 / 2 = 360
    assert_eq!(q.protocol_fee, w(36));
    assert_eq!(q.output_value, w(324));
}

#[test]
fn linear_sell_clamps_below_zero() {
    let q = linear::get_sell_info(25, 10, 5, 0, 0);
    assert_eq!(q.error_code, CurveErrorCode::Success);
    assert_eq!(q.new_spot_price, 0);
    // clamped to 25 / 10 + 1 = 3 items: 3 * 25 - 3 * 2 * 10 / 2
    assert_eq!(q.output_value, w(45));
}

#[test]
fn linear_sell_zero_items() {
    let q = linear::get_sell_info(25, 10, 0, 0, 0);
    assert_eq!(q.error_code, CurveErrorCode::InvalidNumItem);
}

#[test]
fn linear_round_trip_without_fees() {
    let b = linear::get_buy_info(100, 10, 4, 0, 0);
    let s = linear::get_sell_info(b.new_spot_price, b.new_delta, 4, 0, 0);
    assert_eq!(s.new_spot_price, 100);
    assert_eq!(s.new_delta, 10);
    assert_eq!(s.output_value, b.input_value);
}

#[test]
fn buy_cost_grows_with_count() {
    let mut last = 0u128;
    for n in 1..6u64 {
        let q = linear::get_buy_info(100, 10, n, WAD / 100, WAD / 10);
        let v = q.input_value.as_u128().unwrap();
        assert!(v >= last);
        last = v;
    }
    let mut last = 0u128;
    for n in 1..6u64 {
        let q = exponential::get_buy_info(MIN_PRICE, 2 * WAD, n, 0, WAD / 10);
        let v = q.input_value.as_u128().unwrap();
        assert!(v >= last);
        last = v;
    }
}

#[test]
fn exponential_buy_one() {
    let q = exponential::get_buy_info(MIN_PRICE, 2 * WAD, 1, 0, 0);
    assert_eq!(q.error_code, CurveErrorCode::Success);
    assert_eq!(q.new_spot_price, 2 * MIN_PRICE);
    assert_eq!(q.input_value, w(2 * MIN_PRICE));
    assert_eq!(q.protocol_fee, w(0));
}

#[test]
fn exponential_buy_two() {
    let q = exponential::get_buy_info(MIN_PRICE, 2 * WAD, 2, 0, WAD / 10);
    assert_eq!(q.new_spot_price, 4 * MIN_PRICE);
    // 2e24 * ((4 - 1) / (2 - 1)) = 6e24
    assert_eq!(q.protocol_fee, w(6 * MIN_PRICE / 10));
    assert_eq!(q.input_value, w(6 * MIN_PRICE + 6 * MIN_PRICE / 10));
}

#[test]
fn exponential_overflow() {
    let q = exponential::get_buy_info(MIN_PRICE, 2 * WAD, 200, 0, WAD / 10);
    assert_eq!(q.error_code, CurveErrorCode::SpotPriceOverflow);
    assert_eq!(q.new_spot_price, 0);
    assert_eq!(q.input_value, w(0));
}

#[test]
fn exponential_round_trip() {
    let b = exponential::get_buy_info(MIN_PRICE, 2 * WAD, 1, 0, 0);
    let s = exponential::get_sell_info(b.new_spot_price, 2 * WAD, 1, 0, 0);
    assert_eq!(s.new_spot_price, MIN_PRICE);
    assert_eq!(s.output_value, b.input_value);
}

#[test]
fn exponential_sell_floor() {
    let s = exponential::get_sell_info(MIN_PRICE, 2 * WAD, 1, 0, 0);
    assert_eq!(s.error_code, CurveErrorCode::Success);
    assert_eq!(s.new_spot_price, MIN_PRICE);
    assert_eq!(s.output_value, w(MIN_PRICE));
}

#[test]
fn exponential_validation() {
    assert!(exponential::validate_delta(WAD + 1));
    assert!(!exponential::validate_delta(WAD));
    assert!(exponential::validate_spot_price(MIN_PRICE));
    assert!(!exponential::validate_spot_price(MIN_PRICE - 1));
    let c = Curve::new(BondingCurve::LinearCurve);
    assert!(c.validate_delta(0));
    assert!(c.validate_spot_price(0));
}

#[test]
fn curve_tags() {
    assert_eq!(BondingCurve::from_u8(0), Ok(BondingCurve::LinearCurve));
    assert_eq!(BondingCurve::from_u8(1), Ok(BondingCurve::ExponentialCurve));
    assert!(BondingCurve::from_u8(2).is_err());
}

#[test]
fn curve_dispatch() {
    let c = Curve::new(BondingCurve::ExponentialCurve);
    let q = c.get_buy_info(MIN_PRICE, 2 * WAD, 1, 0, 0);
    assert_eq!(q.new_spot_price, 2 * MIN_PRICE);
    let l = Curve::new(BondingCurve::LinearCurve);
    let s = l.get_sell_info(100, 10, 1, 0, 0);
    assert_eq!(s.output_value, w(100));
    assert_eq!(s.new_spot_price, 90);
}

#[test]
fn linear_sell_beyond_128_bit_products() {
    let b = linear::get_buy_info(0, 10u128.pow(38), 2, 0, 0);
    assert_eq!(b.error_code, CurveErrorCode::Success);
    assert_eq!(b.input_value, w(3 * 10u128.pow(38)));
    let s = linear::get_sell_info(b.new_spot_price, b.new_delta, 2, 0, 0);
    assert_eq!(s.error_code, CurveErrorCode::Success);
    assert_eq!(s.new_spot_price, 0);
    assert_eq!(s.output_value, b.input_value);
    let c = linear::get_sell_info(18 * 10u128.pow(37), 10u128.pow(38), 2, 0, 0);
    assert_eq!(c.new_spot_price, 0);
    assert_eq!(c.output_value, w(26 * 10u128.pow(37)));
}

#[test]
fn linear_buy_price_beyond_128_bits() {
    let q = linear::get_buy_info(1u128 << 66, 0, 1u64 << 63, 0, 0);
    assert_eq!(q.error_code, CurveErrorCode::Success);
    assert_eq!(q.new_spot_price, 1u128 << 66);
    assert_eq!(q.input_value, U256 { hi: 2, lo: 0 });
}

#[test]
fn exponential_price_beyond_128_bits() {
    let q = exponential::get_buy_info(2 * MIN_PRICE, 2 * WAD, 47, 0, 0);
    assert_eq!(q.error_code, CurveErrorCode::Success);
    assert_eq!(q.new_spot_price, 2 * MIN_PRICE * (1u128 << 47));
    assert!(q.input_value.hi > 0);
    let s = exponential::get_sell_info(u128::MAX, 2 * WAD, 2, 0, 0);
    assert_eq!(s.error_code, CurveErrorCode::Success);
    assert_eq!(s.new_spot_price, u128::MAX / 4);
    assert!(s.output_value.hi > 0);
}
