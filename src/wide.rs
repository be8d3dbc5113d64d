//! Unsigned 256-bit amounts, held as two 128-bit halves.
use vstd::prelude::*;
use vstd::arithmetic::div_mod::lemma_fundamental_div_mod_converse;
use crate::fixed::{div_wide, fits_u128, full_mul, mul_div, two_128};

verus! {

/// 2^256 as a mathematical integer.
pub open spec fn two_256() -> int {
    two_128() * two_128()
}

/// Whether a mathematical integer fits in 256 bits.
pub open spec fn fits_u256(x: int) -> bool {
    0 <= x < two_256()
}

/// An unsigned 256-bit integer: `hi · 2^128 + lo`.
#[derive(Clone, Copy, Debug, PartialEq, Eq, Structural)]
pub struct U256 {
    pub hi: u128,
    pub lo: u128,
}

/// The 256-bit representation of `x`.
pub open spec fn u256_of(x: int) -> U256 {
    U256 { hi: (x / two_128()) as u128, lo: (x % two_128()) as u128 }
}

/// A representation is determined by its value.
pub proof fn lemma_u256_canonical(v: U256)
    ensures
        v == u256_of(v.value()),
        fits_u256(v.value()),
{
    lemma_fundamental_div_mod_converse(v.value(), two_128(), v.hi as int, v.lo as int);
    assert(v.value() < two_256()) by (nonlinear_arith)
        requires
            v.value() == v.hi * two_128() + v.lo,
            v.hi < two_128(),
            v.lo < two_128(),
            two_128() > 0,
    ;
}

/// The representation of a number that fits has that number as its value.
pub proof fn lemma_u256_of_value(x: int)
    requires
        fits_u256(x),
    ensures
        u256_of(x).value() == x,
{
    let b = two_128();
    vstd::arithmetic::div_mod::lemma_fundamental_div_mod(x, b);
    assert(0 <= x / b < b) by (nonlinear_arith)
        requires
            0 <= x < b * b,
            b > 0,
    ;
    assert(0 <= x % b < b) by (nonlinear_arith)
        requires
            b > 0,
    ;
}

impl U256 {
    /// The number this represents.
    pub open spec fn value(self) -> int {
        self.hi * two_128() + self.lo
    }

    pub fn from_u128(x: u128) -> (r: U256)
        ensures
            r.value() == x,
    {
        U256 { hi: 0, lo: x }
    }

    /// The full product `a * b`.
    pub fn wide_mul(a: u128, b: u128) -> (r: U256)
        ensures
            r.value() == a * b,
    {
        let (hi, lo) = full_mul(a, b);
        U256 { hi, lo }
    }

    /// The value as a `u128`, when it fits.
    pub fn as_u128(&self) -> (r: Option<u128>)
        ensures
            match r {
                Some(v) => v == self.value(),
                None => !fits_u128(self.value()),
            },
    {
        if self.hi == 0 {
            Some(self.lo)
        } else {
            assert(self.value() >= two_128()) by (nonlinear_arith)
                requires
                    self.value() == self.hi * two_128() + self.lo,
                    self.hi >= 1,
            ;
            None
        }
    }

    pub fn le(&self, other: &U256) -> (r: bool)
        ensures
            r == (self.value() <= other.value()),
    {
        proof {
            lemma_order(*self, *other);
        }
        self.hi < other.hi || (self.hi == other.hi && self.lo <= other.lo)
    }

    pub fn checked_add(&self, other: &U256) -> (r: Option<U256>)
        ensures
            match r {
                Some(v) => v.value() == self.value() + other.value(),
                None => !fits_u256(self.value() + other.value()),
            },
    {
        let (lo, carry) = if self.lo <= u128::MAX - other.lo {
            (self.lo + other.lo, 0u128)
        } else {
            (self.lo - (u128::MAX - other.lo) - 1, 1u128)
        };
        assert(self.lo + other.lo == lo + carry * two_128());
        if self.hi > u128::MAX - other.hi || (carry == 1 && self.hi + other.hi == u128::MAX) {
            assert(self.value() + other.value() >= two_256()) by (nonlinear_arith)
                requires
                    self.value() + other.value() == (self.hi + other.hi + carry) * two_128() + lo,
                    self.hi + other.hi + carry >= two_128(),
                    lo >= 0,
                    two_128() > 0,
            ;
            return None;
        }
        let hi = self.hi + other.hi + carry;
        let r = U256 { hi, lo };
        assert(r.value() == self.value() + other.value()) by (nonlinear_arith)
            requires
                r.value() == hi * two_128() + lo,
                self.value() == self.hi * two_128() + self.lo,
                other.value() == other.hi * two_128() + other.lo,
                hi == self.hi + other.hi + carry,
                self.lo + other.lo == lo + carry * two_128(),
        ;
        Some(r)
    }

    pub fn sub(&self, other: &U256) -> (r: U256)
        requires
            other.value() <= self.value(),
        ensures
            r.value() == self.value() - other.value(),
    {
        proof {
            lemma_order(*other, *self);
        }
        if self.lo >= other.lo {
            let r = U256 { hi: self.hi - other.hi, lo: self.lo - other.lo };
            assert(r.value() == self.value() - other.value()) by (nonlinear_arith)
                requires
                    r.value() == r.hi * two_128() + r.lo,
                    self.value() == self.hi * two_128() + self.lo,
                    other.value() == other.hi * two_128() + other.lo,
                    r.hi == self.hi - other.hi,
                    r.lo == self.lo - other.lo,
            ;
            r
        } else {
            let r = U256 { hi: self.hi - other.hi - 1, lo: self.lo + (u128::MAX - other.lo) + 1 };
            assert(r.value() == self.value() - other.value()) by (nonlinear_arith)
                requires
                    r.value() == r.hi * two_128() + r.lo,
                    self.value() == self.hi * two_128() + self.lo,
                    other.value() == other.hi * two_128() + other.lo,
                    r.hi == self.hi - other.hi - 1,
                    r.lo == self.lo - other.lo + two_128(),
            ;
            r
        }
    }

    /// `self * m`, or `None` when the product does not fit in 256 bits.
    fn checked_mul(&self, m: u128) -> (r: Option<U256>)
        ensures
            match r {
                Some(v) => v.value() == self.value() * m,
                None => !fits_u256(self.value() * m),
            },
    {
        let (h1, l1) = full_mul(self.lo, m);
        assert(self.value() * m == (self.hi * m + h1) * two_128() + l1) by (nonlinear_arith)
            requires
                self.value() == self.hi * two_128() + self.lo,
                h1 * two_128() + l1 == self.lo * m,
        ;
        let t = match self.hi.checked_mul(m) {
            Some(t) => t,
            None => {
                assert(self.value() * m >= two_256()) by (nonlinear_arith)
                    requires
                        self.value() * m == (self.hi * m + h1) * two_128() + l1,
                        self.hi * m >= two_128(),
                        h1 >= 0,
                        l1 >= 0,
                        two_128() > 0,
                ;
                return None;
            },
        };
        match t.checked_add(h1) {
            Some(hi) => Some(U256 { hi, lo: l1 }),
            None => {
                assert(self.value() * m >= two_256()) by (nonlinear_arith)
                    requires
                        self.value() * m == (t + h1) * two_128() + l1,
                        t + h1 >= two_128(),
                        l1 >= 0,
                        two_128() > 0,
                ;
                None
            },
        }
    }

    /// Quotient and remainder of a division by `d`.
    fn div_rem(&self, d: u128) -> (r: (U256, u128))
        requires
            d > 0,
        ensures
            r.0.value() * d + r.1 == self.value(),
            r.1 < d,
    {
        let qh = self.hi / d;
        let rh = self.hi % d;
        proof {
            vstd::arithmetic::div_mod::lemma_fundamental_div_mod(self.hi as int, d as int);
        }
        let (ql, rr) = div_wide(rh, self.lo, d);
        let q = U256 { hi: qh, lo: ql };
        assert(q.value() * d + rr == self.value()) by (nonlinear_arith)
            requires
                q.value() == qh * two_128() + ql,
                self.value() == self.hi * two_128() + self.lo,
                self.hi == qh * d + rh,
                ql * d + rr == rh * two_128() + self.lo,
        ;
        (q, rr)
    }

    /// Exact `floor(self * m / d)`, or `None` when it does not fit in 256 bits.
    pub fn mul_div(&self, m: u128, d: u128) -> (r: Option<U256>)
        requires
            d > 0,
        ensures
            match r {
                Some(v) => v.value() == (self.value() * m) / (d as int),
                None => !fits_u256((self.value() * m) / (d as int)),
            },
    {
        let (q, rr) = self.div_rem(d);
        let ghost x = self.value();
        let ghost part = (rr * m) / (d as int);
        proof {
            let t = rr * m;
            vstd::arithmetic::div_mod::lemma_fundamental_div_mod(t, d as int);
            assert(t >= 0) by (nonlinear_arith)
                requires
                    t == rr * m,
                    rr >= 0,
                    m >= 0,
            ;
            vstd::arithmetic::div_mod::lemma_mod_pos_bound(t, d as int);
            assert(x * m == (q.value() * m + part) * d + t % (d as int)) by (nonlinear_arith)
                requires
                    x == q.value() * d + rr,
                    t == rr * m,
                    t == (d as int) * (t / (d as int)) + t % (d as int),
                    part == t / (d as int),
            ;
            lemma_fundamental_div_mod_converse(x * m, d as int, q.value() * m + part, t % (d as int));
            assert(part <= m) by (nonlinear_arith)
                requires
                    part == (rr * m) / (d as int),
                    rr < d,
                    m >= 0,
                    rr >= 0,
            ;
            assert(part >= 0) by (nonlinear_arith)
                requires
                    part == (rr * m) / (d as int),
                    d > 0,
                    m >= 0,
                    rr >= 0,
            ;
        }
        let low = match mul_div(rr, m, d) {
            Some(v) => v,
            None => {
                proof {
                    assert(false);
                }
                0
            },
        };
        match q.checked_mul(m) {
            Some(high) => high.checked_add(&U256::from_u128(low)),
            None => None,
        }
    }
}

proof fn lemma_order(a: U256, b: U256)
    ensures
        (a.value() <= b.value()) == (a.hi < b.hi || (a.hi == b.hi && a.lo <= b.lo)),
{
    if a.hi < b.hi {
        assert(a.value() < b.value()) by (nonlinear_arith)
            requires
                a.value() == a.hi * two_128() + a.lo,
                b.value() == b.hi * two_128() + b.lo,
                a.hi + 1 <= b.hi,
                a.lo < two_128(),
                b.lo >= 0,
        ;
    } else if a.hi > b.hi {
        assert(a.value() > b.value()) by (nonlinear_arith)
            requires
                a.value() == a.hi * two_128() + a.lo,
                b.value() == b.hi * two_128() + b.lo,
                b.hi + 1 <= a.hi,
                b.lo < two_128(),
                a.lo >= 0,
        ;
    }
}

} // verus!
