//! Trade-fee and protocol-fee arithmetic on WAD-scaled multipliers.
use vstd::prelude::*;
use crate::fixed::{mul_div_spec, WAD};
use crate::wide::{fits_u256, lemma_u256_canonical, U256};

verus! {

/// The WAD-scaled share `m` of an amount `x`, rounded down.
pub open spec fn part_of(x: int, m: int) -> int {
    mul_div_spec(x, m, WAD as int)
}

/// An amount with the trade fee and the protocol fee added on top.
pub open spec fn gross_up(x: int, fee: int, pfm: int) -> int {
    x + part_of(x, fee) + part_of(x, pfm)
}

/// An amount with the trade fee and the protocol fee taken off.
pub open spec fn net_down(x: int, fee: int, pfm: int) -> int {
    x - part_of(x, fee) - part_of(x, pfm)
}

pub proof fn lemma_part_nonneg(x: int, m: int)
    requires
        x >= 0,
        m >= 0,
    ensures
        part_of(x, m) >= 0,
{
    assert(x * m >= 0) by (nonlinear_arith)
        requires
            x >= 0,
            m >= 0,
    ;
}

pub proof fn lemma_parts_bounded(x: int, fee: int, pfm: int)
    requires
        x >= 0,
        fee >= 0,
        pfm >= 0,
        fee + pfm <= WAD,
    ensures
        part_of(x, fee) + part_of(x, pfm) <= x,
{
    let w = WAD as int;
    let qa = (x * fee) / w;
    let qb = (x * pfm) / w;
    assert(w * qa <= x * fee) by (nonlinear_arith)
        requires
            w > 0,
            qa == (x * fee) / w,
    ;
    assert(w * qb <= x * pfm) by (nonlinear_arith)
        requires
            w > 0,
            qb == (x * pfm) / w,
    ;
    assert(qa + qb <= x) by (nonlinear_arith)
        requires
            w > 0,
            w * qa <= x * fee,
            w * qb <= x * pfm,
            fee + pfm <= w,
            x >= 0,
    ;
}

/// Adds both fees to `x`: returns the total and the protocol share, or `None` when the
/// total does not fit in 256 bits.
pub fn add_fees(x: U256, fee: u128, pfm: u128) -> (r: Option<(U256, U256)>)
    ensures
        match r {
            Some((total, pf)) => total.value() == gross_up(x.value(), fee as int, pfm as int)
                && pf.value() == part_of(x.value(), pfm as int),
            None => !fits_u256(gross_up(x.value(), fee as int, pfm as int)),
        },
{
    proof {
        lemma_u256_canonical(x);
        lemma_part_nonneg(x.value(), fee as int);
        lemma_part_nonneg(x.value(), pfm as int);
    }
    let pf = match x.mul_div(pfm, WAD) {
        Some(v) => v,
        None => return None,
    };
    let tf = match x.mul_div(fee, WAD) {
        Some(v) => v,
        None => return None,
    };
    match x.checked_add(&tf) {
        Some(s) => match s.checked_add(&pf) {
            Some(total) => Some((total, pf)),
            None => None,
        },
        None => None,
    }
}

/// Takes both fees off `x`: returns the net amount and the protocol share.
pub fn sub_fees(x: U256, fee: u128, pfm: u128) -> (r: (U256, U256))
    requires
        fee + pfm <= WAD,
    ensures
        r.0.value() == net_down(x.value(), fee as int, pfm as int),
        r.1.value() == part_of(x.value(), pfm as int),
{
    proof {
        lemma_u256_canonical(x);
        lemma_part_nonneg(x.value(), fee as int);
        lemma_part_nonneg(x.value(), pfm as int);
        lemma_parts_bounded(x.value(), fee as int, pfm as int);
    }
    let pf = match x.mul_div(pfm, WAD) {
        Some(v) => v,
        None => {
            proof {
                assert(false);
            }
            U256::from_u128(0)
        },
    };
    let tf = match x.mul_div(fee, WAD) {
        Some(v) => v,
        None => {
            proof {
                assert(false);
            }
            U256::from_u128(0)
        },
    };
    let rest = x.sub(&tf);
    (rest.sub(&pf), pf)
}

} // verus!
