//! Result shapes shared by the bonding-curve kernels.
use vstd::prelude::*;
use crate::wide::U256;

verus! {

/// Outcome of a curve quote.
#[derive(Clone, Copy, Debug, PartialEq, Eq, Structural)]
pub enum CurveErrorCode {
    Success,
    InvalidNumItem,
    SpotPriceOverflow,
}

/// Quote for buying items out of a pool.
#[derive(Clone, Copy, Debug)]
pub struct BuyInfo {
    pub error_code: CurveErrorCode,
    pub new_spot_price: u128,
    pub new_delta: u128,
    pub input_value: U256,
    pub protocol_fee: U256,
}

/// Quote for selling items into a pool.
#[derive(Clone, Copy, Debug)]
pub struct SellInfo {
    pub error_code: CurveErrorCode,
    pub new_spot_price: u128,
    pub new_delta: u128,
    pub output_value: U256,
    pub protocol_fee: U256,
}

/// A failed buy quote: every amount is zero.
pub open spec fn failed_buy(code: CurveErrorCode) -> BuyInfo {
    BuyInfo { error_code: code, new_spot_price: 0, new_delta: 0, input_value: U256 { hi: 0, lo: 0 }, protocol_fee: U256 { hi: 0, lo: 0 } }
}

/// A failed sell quote: every amount is zero.
pub open spec fn failed_sell(code: CurveErrorCode) -> SellInfo {
    SellInfo { error_code: code, new_spot_price: 0, new_delta: 0, output_value: U256 { hi: 0, lo: 0 }, protocol_fee: U256 { hi: 0, lo: 0 } }
}

pub fn buy_failure(code: CurveErrorCode) -> (r: BuyInfo)
    ensures
        r == failed_buy(code),
{
    BuyInfo { error_code: code, new_spot_price: 0, new_delta: 0, input_value: U256 { hi: 0, lo: 0 }, protocol_fee: U256 { hi: 0, lo: 0 } }
}

pub fn sell_failure(code: CurveErrorCode) -> (r: SellInfo)
    ensures
        r == failed_sell(code),
{
    SellInfo { error_code: code, new_spot_price: 0, new_delta: 0, output_value: U256 { hi: 0, lo: 0 }, protocol_fee: U256 { hi: 0, lo: 0 } }
}

} // verus!
