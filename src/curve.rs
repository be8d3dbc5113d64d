//! Curve selection: dispatches quotes to the linear or exponential kernel.
use vstd::prelude::*;
use crate::error::AmmError;
use crate::exponential;
use crate::fixed::WAD;
use crate::linear;
use crate::quote::{BuyInfo, SellInfo};

verus! {

/// The family of bonding curve a pool prices on.
#[derive(Clone, Copy, Debug, PartialEq, Eq, Structural)]
pub enum BondingCurve {
    LinearCurve,
    ExponentialCurve,
}

impl BondingCurve {
    /// Decodes the wire tag: 0 is linear, 1 is exponential.
    pub fn from_u8(val: u8) -> (r: Result<BondingCurve, AmmError>)
        ensures
            val == 0 ==> r == Ok::<BondingCurve, AmmError>(BondingCurve::LinearCurve),
            val == 1 ==> r == Ok::<BondingCurve, AmmError>(BondingCurve::ExponentialCurve),
            val > 1 ==> r == Err::<BondingCurve, AmmError>(AmmError::UnknownCurve),
    {
        if val == 0 {
            Ok(BondingCurve::LinearCurve)
        } else if val == 1 {
            Ok(BondingCurve::ExponentialCurve)
        } else {
            Err(AmmError::UnknownCurve)
        }
    }
}

/// A pool's pricing curve.
#[derive(Clone, Copy, Debug)]
pub struct Curve {
    pub curve_type: BondingCurve,
}

impl Curve {
    pub open spec fn valid_delta(self, delta: u128) -> bool {
        match self.curve_type {
            BondingCurve::LinearCurve => true,
            BondingCurve::ExponentialCurve => delta > WAD,
        }
    }

    pub open spec fn valid_spot_price(self, spot: u128) -> bool {
        match self.curve_type {
            BondingCurve::LinearCurve => true,
            BondingCurve::ExponentialCurve => spot >= exponential::MIN_PRICE,
        }
    }

    /// The buy quote of this curve.
    pub open spec fn buy_quote(self, spot: u128, delta: u128, n: u64, fee: u128, pfm: u128) -> BuyInfo {
        match self.curve_type {
            BondingCurve::LinearCurve => linear::buy_quote(spot, delta, n, fee, pfm),
            BondingCurve::ExponentialCurve => exponential::buy_quote(spot, delta, n, fee, pfm),
        }
    }

    /// The sell quote of this curve.
    pub open spec fn sell_quote(self, spot: u128, delta: u128, n: u64, fee: u128, pfm: u128) -> SellInfo {
        match self.curve_type {
            BondingCurve::LinearCurve => linear::sell_quote(spot, delta, n, fee, pfm),
            BondingCurve::ExponentialCurve => exponential::sell_quote(spot, delta, n, fee, pfm),
        }
    }

    pub fn new(curve_type: BondingCurve) -> (r: Curve)
        ensures
            r.curve_type == curve_type,
    {
        Curve { curve_type }
    }

    pub fn validate_delta(&self, delta: u128) -> (r: bool)
        ensures
            r == self.valid_delta(delta),
    {
        match self.curve_type {
            BondingCurve::LinearCurve => linear::validate_delta(delta),
            BondingCurve::ExponentialCurve => exponential::validate_delta(delta),
        }
    }

    pub fn validate_spot_price(&self, new_spot_price: u128) -> (r: bool)
        ensures
            r == self.valid_spot_price(new_spot_price),
    {
        match self.curve_type {
            BondingCurve::LinearCurve => linear::validate_spot_price(new_spot_price),
            BondingCurve::ExponentialCurve => exponential::validate_spot_price(new_spot_price),
        }
    }

    pub fn get_buy_info(
        &self,
        spot_price: u128,
        delta: u128,
        num_items: u64,
        fee_multiplier: u128,
        protocol_fee_multiplier: u128,
    ) -> (r: BuyInfo)
        requires
            num_items > 0 ==> self.valid_delta(delta),
        ensures
            r == self.buy_quote(spot_price, delta, num_items, fee_multiplier, protocol_fee_multiplier),
    {
        match self.curve_type {
            BondingCurve::LinearCurve => linear::get_buy_info(
                spot_price,
                delta,
                num_items,
                fee_multiplier,
                protocol_fee_multiplier,
            ),
            BondingCurve::ExponentialCurve => exponential::get_buy_info(
                spot_price,
                delta,
                num_items,
                fee_multiplier,
                protocol_fee_multiplier,
            ),
        }
    }

    pub fn get_sell_info(
        &self,
        spot_price: u128,
        delta: u128,
        num_items: u64,
        fee_multiplier: u128,
        protocol_fee_multiplier: u128,
    ) -> (r: SellInfo)
        requires
            num_items > 0 ==> self.valid_delta(delta),
            num_items > 0 ==> fee_multiplier + protocol_fee_multiplier <= WAD,
        ensures
            r == self.sell_quote(spot_price, delta, num_items, fee_multiplier, protocol_fee_multiplier),
    {
        match self.curve_type {
            BondingCurve::LinearCurve => linear::get_sell_info(
                spot_price,
                delta,
                num_items,
                fee_multiplier,
                protocol_fee_multiplier,
            ),
            BondingCurve::ExponentialCurve => exponential::get_sell_info(
                spot_price,
                delta,
                num_items,
                fee_multiplier,
                protocol_fee_multiplier,
            ),
        }
    }
}

} // verus!
